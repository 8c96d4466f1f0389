use vstd::prelude::*;
use crate::coords::Coordinates;
use crate::map::Grid;
use crate::map::TileType;
use crate::map::filled;
use crate::map::lemma_index_in_range;
use crate::navigation::MotionBlocked;
use crate::navigation::Collision;
use crate::navigation::CollisionsMonitored;
use crate::visibility::VisibilityBlocked;
use crate::visibility::VisibleTiles;
use crate::visibility::RevealedTiles;
use crate::visibility::Viewshed;
use crate::visibility::seen_by_any;
use crate::visibility::lemma_seen_by_any_same_views;
use crate::visibility::cell_set;
use crate::visibility::fov_spec;
use crate::pathfinding::Destination;
use crate::pathfinding::Path;
use crate::pathfinding::Speed;
use crate::pathfinding::Velocity;

verus! {

/// One mobile entity of the simulation: its continuous position, its
/// motion state, its closed set of blocking capabilities, and its
/// navigation request. Its viewshed and its computed path live in the
/// world's parallel per-entity arrays.
#[derive(Clone, Copy, Debug)]
pub struct EntityRecord {
    pub coordinates: Coordinates,
    pub velocity: Velocity,
    pub speed: Speed,
    pub blocks_motion: bool,
    pub blocks_visibility: bool,
    pub monitors_collisions: bool,
    pub player: bool,
    pub destination: Option<Destination>,
}

/// The simulation state for one grid instance: the grid, the entity
/// records, the tile-indexed occupancy sets, and the derived blocking
/// and visibility bitmaps. One coordinator owns it and hands it to the
/// subsystem passes in a fixed order each tick.
pub struct World {
    pub grid: Grid,
    pub entities: Vec<Option<EntityRecord>>,
    pub viewsheds: Vec<Option<Viewshed>>,
    pub paths: Vec<Option<Path>>,
    pub occupancy: Vec<Vec<usize>>,
    pub motion_blocked: MotionBlocked,
    pub visibility_blocked: VisibilityBlocked,
    pub collisions_monitored: CollisionsMonitored,
    pub visible_tiles: VisibleTiles,
    pub revealed_tiles: RevealedTiles,
}

impl World {
    /// An entity identifier that names a live record.
    pub open spec fn alive(self, e: int) -> bool {
        0 <= e < self.entities@.len() && self.entities@[e] is Some
    }

    pub open spec fn rec(self, e: int) -> EntityRecord {
        self.entities@[e]->Some_0
    }

    /// The tile index the entity's position falls in.
    pub open spec fn eidx(self, e: int) -> int {
        self.rec(e).coordinates.index_spec(self.grid.width as int)
    }

    /// Whether entity `e` is recorded in tile `i`'s occupancy set.
    pub open spec fn occupies(self, i: int, e: int) -> bool {
        exists |k: int| 0 <= k < self.occupancy@[i]@.len()
            && (#[trigger] self.occupancy@[i]@[k]) as int == e
    }

    /// Some occupant of tile `i` blocks motion.
    pub open spec fn occupant_blocks_motion(self, i: int) -> bool {
        exists |k: int| 0 <= k < self.occupancy@[i]@.len()
            && self.rec((#[trigger] self.occupancy@[i]@[k]) as int).blocks_motion
    }

    /// Some occupant of tile `i` blocks visibility.
    pub open spec fn occupant_blocks_visibility(self, i: int) -> bool {
        exists |k: int| 0 <= k < self.occupancy@[i]@.len()
            && self.rec((#[trigger] self.occupancy@[i]@[k]) as int).blocks_visibility
    }

    /// Some occupant of tile `i` monitors collisions.
    pub open spec fn occupant_monitors(self, i: int) -> bool {
        exists |k: int| 0 <= k < self.occupancy@[i]@.len()
            && self.rec((#[trigger] self.occupancy@[i]@[k]) as int).monitors_collisions
    }

    /// The tile-indexed arrays are sized to the grid's tile count, and
    /// the per-entity arrays run parallel to the records.
    pub open spec fn lens_wf(self) -> bool {
        &&& self.grid.wf()
        &&& self.viewsheds@.len() == self.entities@.len()
        &&& self.paths@.len() == self.entities@.len()
        &&& self.occupancy@.len() == self.grid.count_spec()
        &&& self.motion_blocked.0@.len() == self.grid.count_spec()
        &&& self.visibility_blocked.0@.len() == self.grid.count_spec()
        &&& self.collisions_monitored.0@.len() == self.grid.count_spec()
        &&& self.visible_tiles.0@.len() == self.grid.count_spec()
        &&& self.revealed_tiles.0@.len() == self.grid.count_spec()
    }

    /// The spatial index is sound: every live entity sits on the grid
    /// and is a member of its own tile's occupancy set; every recorded
    /// occupant is a live entity recorded in the right tile, at one
    /// position only.
    pub open spec fn occ_wf(self) -> bool {
        &&& forall |e: int| #[trigger] self.alive(e)
            ==> self.rec(e).coordinates.in_grid(self.grid.width as int, self.grid.height as int)
        &&& forall |e: int| #[trigger] self.alive(e) ==> self.occupies(self.eidx(e), e)
        &&& forall |i: int, k: int|
            0 <= i < self.occupancy@.len() && 0 <= k < self.occupancy@[i]@.len()
            ==> {
                let e = (#[trigger] self.occupancy@[i]@[k]) as int;
                &&& self.alive(e)
                &&& self.eidx(e) == i
            }
        &&& forall |i: int, k1: int, k2: int|
            0 <= i < self.occupancy@.len() && 0 <= k1 < self.occupancy@[i]@.len()
                && 0 <= k2 < self.occupancy@[i]@.len()
                && (#[trigger] self.occupancy@[i]@[k1]) == (#[trigger] self.occupancy@[i]@[k2])
            ==> k1 == k2
    }

    /// The blocking bitmaps hold exactly their defining formulas: a
    /// tile blocks motion or sight when its kind does or some occupant
    /// does, and is collision-monitored when some occupant monitors.
    pub open spec fn blocking_wf(self) -> bool {
        &&& forall |i: int| 0 <= i < self.grid.count_spec()
            ==> #[trigger] self.motion_blocked.0@[i]
                == (self.grid.tiles@[i] is Wall || self.occupant_blocks_motion(i))
        &&& forall |i: int| 0 <= i < self.grid.count_spec()
            ==> #[trigger] self.visibility_blocked.0@[i]
                == (self.grid.tiles@[i] is Wall || self.occupant_blocks_visibility(i))
        &&& forall |i: int| 0 <= i < self.grid.count_spec()
            ==> #[trigger] self.collisions_monitored.0@[i] == self.occupant_monitors(i)
    }

    /// Motion state stays within the ranges the steering and movement
    /// arithmetic is proved for.
    pub open spec fn rec_wf(self) -> bool {
        forall |e: int| #[trigger] self.alive(e) ==> {
            let r = self.rec(e);
            &&& -1000000 <= r.velocity.x <= 1000000
            &&& -1000000 <= r.velocity.y <= 1000000
            &&& r.speed.0 <= 1000000
        }
    }

    pub open spec fn wf(self) -> bool {
        &&& self.lens_wf()
        &&& self.occ_wf()
        &&& self.blocking_wf()
        &&& self.rec_wf()
    }

    /// Build a fresh simulation state for a grid: no entities, the
    /// blocking bitmaps seeded from the tile kinds alone, nothing seen
    /// and nothing revealed yet.
    pub fn new(grid: Grid) -> (r: World)
        requires
            grid.wf(),
        ensures
            r.wf(),
            r.grid == grid,
            r.entities@.len() == 0,
            forall |i: int| 0 <= i < grid.count_spec()
                ==> #[trigger] r.motion_blocked.0@[i] == (grid.tiles@[i] is Wall),
            forall |i: int| 0 <= i < grid.count_spec()
                ==> #[trigger] r.visibility_blocked.0@[i] == (grid.tiles@[i] is Wall),
            forall |i: int| 0 <= i < grid.count_spec()
                ==> !(#[trigger] r.collisions_monitored.0@[i]),
            forall |i: int| 0 <= i < grid.count_spec()
                ==> !(#[trigger] r.visible_tiles.0@[i]),
            forall |i: int| 0 <= i < grid.count_spec()
                ==> !(#[trigger] r.revealed_tiles.0@[i]),
    {
        let count = grid.count();
        let mut occupancy: Vec<Vec<usize>> = Vec::new();
        let mut mb: Vec<bool> = Vec::new();
        let mut vb: Vec<bool> = Vec::new();
        let mut i: usize = 0;
        while i < count
            invariant
                grid.wf(),
                count == grid.count_spec(),
                i <= count,
                occupancy@.len() == i,
                mb@.len() == i,
                vb@.len() == i,
                forall |q: int| 0 <= q < i ==> (#[trigger] occupancy@[q])@.len() == 0,
                forall |q: int| 0 <= q < i
                    ==> #[trigger] mb@[q] == (grid.tiles@[q] is Wall),
                forall |q: int| 0 <= q < i
                    ==> #[trigger] vb@[q] == (grid.tiles@[q] is Wall),
            decreases count - i,
        {
            occupancy.push(Vec::new());
            let t = grid.tiles[i];
            mb.push(t.blocks_motion());
            vb.push(t.blocks_visibility());
            i = i + 1;
        }
        let r = World {
            grid,
            entities: Vec::new(),
            viewsheds: Vec::new(),
            paths: Vec::new(),
            occupancy,
            motion_blocked: MotionBlocked(mb),
            visibility_blocked: VisibilityBlocked(vb),
            collisions_monitored: CollisionsMonitored(filled(false, count)),
            visible_tiles: VisibleTiles(filled(false, count)),
            revealed_tiles: RevealedTiles(filled(false, count)),
        };
        proof {
            assert forall |e: int| #[trigger] r.alive(e)
                implies r.rec(e).coordinates.in_grid(r.grid.width as int, r.grid.height as int)
                    && r.occupies(r.eidx(e), e) by {
                assert(false);
            }
        }
        r
    }
}

/// A live entity is a member of exactly one tile's occupancy set:
/// the one its coordinates fall in.
pub proof fn lemma_entity_in_exactly_one_tile(w: World, e: int, i: int)
    requires
        w.wf(),
        w.alive(e),
        0 <= i < w.grid.count_spec(),
    ensures
        w.occupies(i, e) <==> i == w.eidx(e),
{
    if w.occupies(i, e) {
        let k = choose |k: int| 0 <= k < w.occupancy@[i]@.len()
            && (#[trigger] w.occupancy@[i]@[k]) as int == e;
        assert(w.eidx(w.occupancy@[i]@[k] as int) == i);
    }
}

/// A tile's motion-blocked flag is exactly: its kind blocks motion, or
/// some entity occupying it blocks motion.
pub proof fn lemma_motion_blocked_consistent(w: World, i: int)
    requires
        w.wf(),
        0 <= i < w.grid.count_spec(),
    ensures
        w.motion_blocked.0@[i] == (w.grid.tiles@[i] is Wall || w.occupant_blocks_motion(i)),
{
}

/// A tile's visibility-blocked flag is exactly: its kind blocks sight,
/// or some entity occupying it blocks sight.
pub proof fn lemma_visibility_blocked_consistent(w: World, i: int)
    requires
        w.wf(),
        0 <= i < w.grid.count_spec(),
    ensures
        w.visibility_blocked.0@[i]
            == (w.grid.tiles@[i] is Wall || w.occupant_blocks_visibility(i)),
{
}

/// A tile's collision-monitored flag is exactly: some entity occupying
/// it monitors collisions. The tile kind plays no part.
pub proof fn lemma_monitored_consistent(w: World, i: int)
    requires
        w.wf(),
        0 <= i < w.grid.count_spec(),
    ensures
        w.collisions_monitored.0@[i] == w.occupant_monitors(i),
{
}

/// A copy of a vector of copyable items.
fn copy_vec<T: Copy>(v: &Vec<T>) -> (r: Vec<T>)
    ensures
        r@ == v@,
{
    let mut r: Vec<T> = Vec::new();
    let mut i: usize = 0;
    while i < v.len()
        invariant
            i <= v@.len(),
            r@ == v@.subrange(0, i as int),
        decreases v@.len() - i,
    {
        let c = v[i];
        r.push(c);
        proof {
            assert(r@ =~= v@.subrange(0, i + 1));
        }
        i = i + 1;
    }
    proof {
        assert(r@ =~= v@);
    }
    r
}

/// Append an entity to one tile's occupancy set.
fn bucket_push(occ: &mut Vec<Vec<usize>>, i: usize, e: usize)
    requires
        i < old(occ)@.len(),
    ensures
        final(occ)@.len() == old(occ)@.len(),
        final(occ)@[i as int]@ == old(occ)@[i as int]@.push(e),
        forall |j: int| 0 <= j < old(occ)@.len() && j != i
            ==> #[trigger] final(occ)@[j] == old(occ)@[j],
{
    let mut bucket = copy_vec(&occ[i]);
    bucket.push(e);
    occ.set(i, bucket);
}

/// Remove one occurrence of an entity from a tile's occupancy set,
/// returning the position it held.
fn bucket_remove(occ: &mut Vec<Vec<usize>>, i: usize, e: usize) -> (k: usize)
    requires
        i < old(occ)@.len(),
        old(occ)@[i as int]@.contains(e),
    ensures
        final(occ)@.len() == old(occ)@.len(),
        k < old(occ)@[i as int]@.len(),
        old(occ)@[i as int]@[k as int] == e,
        final(occ)@[i as int]@ == old(occ)@[i as int]@.remove(k as int),
        forall |j: int| 0 <= j < old(occ)@.len() && j != i
            ==> #[trigger] final(occ)@[j] == old(occ)@[j],
{
    let mut bucket = copy_vec(&occ[i]);
    let mut k: usize = 0;
    while k < bucket.len()
        invariant
            occ@ == old(occ)@,
            i < occ@.len(),
            bucket@ == old(occ)@[i as int]@,
            bucket@.contains(e),
            k <= bucket@.len(),
            forall |q: int| 0 <= q < k ==> (#[trigger] bucket@[q]) != e,
        decreases bucket@.len() - k,
    {
        if bucket[k] == e {
            bucket.remove(k);
            occ.set(i, bucket);
            return k;
        }
        k = k + 1;
    }
    proof {
        let q = choose |q: int| 0 <= q < bucket@.len() && bucket@[q] == e;
        assert(false);
    }
    unreached()
}

/// Unchanged occupancy and unchanged capability flags leave the
/// per-tile occupant predicates unchanged.
proof fn lemma_same_bucket_same_flags(w1: World, w2: World, i: int)
    requires
        0 <= i < w1.occupancy@.len(),
        i < w2.occupancy@.len(),
        w1.occupancy@[i]@ == w2.occupancy@[i]@,
        forall |k: int| 0 <= k < w1.occupancy@[i]@.len() ==> {
            let e = (#[trigger] w1.occupancy@[i]@[k]) as int;
            &&& 0 <= e < w1.entities@.len()
            &&& 0 <= e < w2.entities@.len()
            &&& w1.entities@[e] is Some
            &&& w2.entities@[e] is Some
            &&& w1.rec(e).blocks_motion == w2.rec(e).blocks_motion
            &&& w1.rec(e).blocks_visibility == w2.rec(e).blocks_visibility
            &&& w1.rec(e).monitors_collisions == w2.rec(e).monitors_collisions
        },
    ensures
        w1.occupant_blocks_motion(i) == w2.occupant_blocks_motion(i),
        w1.occupant_blocks_visibility(i) == w2.occupant_blocks_visibility(i),
        w1.occupant_monitors(i) == w2.occupant_monitors(i),
{
    if w1.occupant_blocks_motion(i) {
        let k = choose |k: int| 0 <= k < w1.occupancy@[i]@.len()
            && w1.rec((#[trigger] w1.occupancy@[i]@[k]) as int).blocks_motion;
        assert(w2.rec(w2.occupancy@[i]@[k] as int).blocks_motion);
    }
    if w2.occupant_blocks_motion(i) {
        let k = choose |k: int| 0 <= k < w2.occupancy@[i]@.len()
            && w2.rec((#[trigger] w2.occupancy@[i]@[k]) as int).blocks_motion;
        assert(w1.rec(w1.occupancy@[i]@[k] as int).blocks_motion);
    }
    if w1.occupant_blocks_visibility(i) {
        let k = choose |k: int| 0 <= k < w1.occupancy@[i]@.len()
            && w1.rec((#[trigger] w1.occupancy@[i]@[k]) as int).blocks_visibility;
        assert(w2.rec(w2.occupancy@[i]@[k] as int).blocks_visibility);
    }
    if w2.occupant_blocks_visibility(i) {
        let k = choose |k: int| 0 <= k < w2.occupancy@[i]@.len()
            && w2.rec((#[trigger] w2.occupancy@[i]@[k]) as int).blocks_visibility;
        assert(w1.rec(w1.occupancy@[i]@[k] as int).blocks_visibility);
    }
    if w1.occupant_monitors(i) {
        let k = choose |k: int| 0 <= k < w1.occupancy@[i]@.len()
            && w1.rec((#[trigger] w1.occupancy@[i]@[k]) as int).monitors_collisions;
        assert(w2.rec(w2.occupancy@[i]@[k] as int).monitors_collisions);
    }
    if w2.occupant_monitors(i) {
        let k = choose |k: int| 0 <= k < w2.occupancy@[i]@.len()
            && w2.rec((#[trigger] w2.occupancy@[i]@[k]) as int).monitors_collisions;
        assert(w1.rec(w1.occupancy@[i]@[k] as int).monitors_collisions);
    }
}

impl World {
    /// Recompute the three blocking flags of one tile from its kind
    /// and its current occupants. Nothing else changes.
    fn refresh_tile(&mut self, i: usize)
        requires
            old(self).lens_wf(),
            i < old(self).grid.count_spec(),
            forall |k: int| 0 <= k < old(self).occupancy@[i as int]@.len() ==> {
                let e = (#[trigger] old(self).occupancy@[i as int]@[k]) as int;
                0 <= e < old(self).entities@.len() && old(self).entities@[e] is Some
            },
        ensures
            final(self).grid == old(self).grid,
            final(self).entities == old(self).entities,
            final(self).viewsheds == old(self).viewsheds,
            final(self).paths == old(self).paths,
            final(self).occupancy == old(self).occupancy,
            final(self).visible_tiles == old(self).visible_tiles,
            final(self).revealed_tiles == old(self).revealed_tiles,
            final(self).lens_wf(),
            final(self).motion_blocked.0@
                == old(self).motion_blocked.0@.update(i as int,
                    old(self).grid.tiles@[i as int] is Wall
                        || old(self).occupant_blocks_motion(i as int)),
            final(self).visibility_blocked.0@
                == old(self).visibility_blocked.0@.update(i as int,
                    old(self).grid.tiles@[i as int] is Wall
                        || old(self).occupant_blocks_visibility(i as int)),
            final(self).collisions_monitored.0@
                == old(self).collisions_monitored.0@.update(i as int,
                    old(self).occupant_monitors(i as int)),
    {
        let ghost w0 = *self;
        let tile_blocks = match self.grid.tiles[i] {
            TileType::Wall => true,
            TileType::Floor => false,
        };
        let mut fm = false;
        let mut fv = false;
        let mut fc = false;
        let bucket = &self.occupancy[i];
        let mut k: usize = 0;
        while k < bucket.len()
            invariant
                *self == w0,
                bucket == w0.occupancy@[i as int],
                i < w0.occupancy@.len(),
                k <= bucket@.len(),
                forall |q: int| 0 <= q < bucket@.len() ==> {
                    let e = (#[trigger] bucket@[q]) as int;
                    0 <= e < w0.entities@.len() && w0.entities@[e] is Some
                },
                fm == exists |q: int| 0 <= q < k
                    && w0.rec((#[trigger] bucket@[q]) as int).blocks_motion,
                fv == exists |q: int| 0 <= q < k
                    && w0.rec((#[trigger] bucket@[q]) as int).blocks_visibility,
                fc == exists |q: int| 0 <= q < k
                    && w0.rec((#[trigger] bucket@[q]) as int).monitors_collisions,
            decreases bucket@.len() - k,
        {
            let e = bucket[k];
            match &self.entities[e] {
                Some(r) => {
                    let ghost fm0 = fm;
                    let ghost fv0 = fv;
                    let ghost fc0 = fc;
                    if r.blocks_motion {
                        fm = true;
                    }
                    if r.blocks_visibility {
                        fv = true;
                    }
                    if r.monitors_collisions {
                        fc = true;
                    }
                    proof {
                        assert(w0.rec(bucket@[k as int] as int) == *r);
                        if !fm0 && !r.blocks_motion {
                            assert(!(exists |q: int| 0 <= q < k + 1
                                && w0.rec((#[trigger] bucket@[q]) as int).blocks_motion)) by {
                                if exists |q: int| 0 <= q < k + 1
                                    && w0.rec((#[trigger] bucket@[q]) as int).blocks_motion {
                                    let q = choose |q: int| 0 <= q < k + 1
                                        && w0.rec((#[trigger] bucket@[q]) as int).blocks_motion;
                                    assert(q == k);
                                }
                            }
                        }
                        if !fv0 && !r.blocks_visibility {
                            assert(!(exists |q: int| 0 <= q < k + 1
                                && w0.rec((#[trigger] bucket@[q]) as int).blocks_visibility)) by {
                                if exists |q: int| 0 <= q < k + 1
                                    && w0.rec((#[trigger] bucket@[q]) as int).blocks_visibility {
                                    let q = choose |q: int| 0 <= q < k + 1
                                        && w0.rec((#[trigger] bucket@[q]) as int).blocks_visibility;
                                    assert(q == k);
                                }
                            }
                        }
                        if !fc0 && !r.monitors_collisions {
                            assert(!(exists |q: int| 0 <= q < k + 1
                                && w0.rec((#[trigger] bucket@[q]) as int).monitors_collisions)) by {
                                if exists |q: int| 0 <= q < k + 1
                                    && w0.rec((#[trigger] bucket@[q]) as int).monitors_collisions {
                                    let q = choose |q: int| 0 <= q < k + 1
                                        && w0.rec((#[trigger] bucket@[q]) as int).monitors_collisions;
                                    assert(q == k);
                                }
                            }
                        }
                    }
                }
                None => {
                    proof {
                        assert(false);
                    }
                }
            }
            k = k + 1;
        }
        proof {
            assert(fm == w0.occupant_blocks_motion(i as int));
            assert(fv == w0.occupant_blocks_visibility(i as int));
            assert(fc == w0.occupant_monitors(i as int));
        }
        self.motion_blocked.0.set(i, tile_blocks || fm);
        self.visibility_blocked.0.set(i, tile_blocks || fv);
        self.collisions_monitored.0.set(i, fc);
    }
}

/// Unchanged grid, records and occupancy carry the spatial-index
/// well-formedness across bitmap-only updates.
proof fn lemma_occ_wf_transfer(w1: World, w2: World)
    requires
        w1.occ_wf(),
        w2.grid.width == w1.grid.width,
        w2.grid.height == w1.grid.height,
        w2.entities == w1.entities,
        w2.occupancy == w1.occupancy,
    ensures
        w2.occ_wf(),
{
    assert forall |e: int| #[trigger] w2.alive(e)
        implies w2.rec(e).coordinates.in_grid(w2.grid.width as int, w2.grid.height as int)
            && w2.occupies(w2.eidx(e), e) by {
        assert(w1.alive(e));
        assert(w1.occupies(w1.eidx(e), e));
        assert(w2.eidx(e) == w1.eidx(e));
        let k = choose |k: int| 0 <= k < w1.occupancy@[w1.eidx(e)]@.len()
            && (#[trigger] w1.occupancy@[w1.eidx(e)]@[k]) as int == e;
        assert(w2.occupancy@[w2.eidx(e)]@[k] as int == e);
    }
    assert forall |i: int, k: int|
            0 <= i < w2.occupancy@.len() && 0 <= k < w2.occupancy@[i]@.len()
        implies {
            let e = (#[trigger] w2.occupancy@[i]@[k]) as int;
            w2.alive(e) && w2.eidx(e) == i
        } by {
        let e = (w1.occupancy@[i]@[k]) as int;
        assert(w1.alive(e) && w1.eidx(e) == i);
    }
}

impl World {
    /// Create an entity at a position: it is recorded in its tile's
    /// occupancy set and the tile's blocking flags absorb its
    /// capabilities at once.
    pub fn spawn(&mut self, record: EntityRecord, viewshed: Option<Viewshed>) -> (id: usize)
        requires
            old(self).wf(),
            record.coordinates.in_grid(old(self).grid.width as int, old(self).grid.height as int),
            -1000000 <= record.velocity.x <= 1000000,
            -1000000 <= record.velocity.y <= 1000000,
            record.speed.0 <= 1000000,
        ensures
            final(self).wf(),
            id == old(self).entities@.len(),
            final(self).entities@.len() == id + 1,
            final(self).alive(id as int),
            final(self).rec(id as int) == record,
            final(self).viewsheds@[id as int] == viewshed,
            final(self).paths@[id as int] is None,
            forall |e: int| 0 <= e < id ==> #[trigger] final(self).entities@[e] == old(self).entities@[e],
            forall |e: int| 0 <= e < id ==> #[trigger] final(self).viewsheds@[e] == old(self).viewsheds@[e],
            forall |e: int| 0 <= e < id ==> #[trigger] final(self).paths@[e] == old(self).paths@[e],
            final(self).grid == old(self).grid,
            final(self).visible_tiles == old(self).visible_tiles,
            final(self).revealed_tiles == old(self).revealed_tiles,
    {
        let ghost w0 = *self;
        let id = self.entities.len();
        let idx = record.coordinates.to_index(self.grid.width);
        proof {
            lemma_index_in_range(self.grid.width as int, self.grid.height as int,
                record.coordinates.tile_x_spec(), record.coordinates.tile_y_spec());
        }
        self.entities.push(Some(record));
        self.viewsheds.push(viewshed);
        self.paths.push(None);
        bucket_push(&mut self.occupancy, idx, id);
        let ghost w1 = *self;
        proof {
            // Spatial-index soundness after the insert.
            assert forall |e: int| #[trigger] w1.alive(e)
                implies w1.rec(e).coordinates.in_grid(w1.grid.width as int, w1.grid.height as int)
                    && w1.occupies(w1.eidx(e), e) by {
                if e < id {
                    assert(w0.alive(e));
                    assert(w0.occupies(w0.eidx(e), e));
                    assert(w1.eidx(e) == w0.eidx(e));
                    let k = choose |k: int| 0 <= k < w0.occupancy@[w0.eidx(e)]@.len()
                        && (#[trigger] w0.occupancy@[w0.eidx(e)]@[k]) as int == e;
                    lemma_index_in_range(w0.grid.width as int, w0.grid.height as int,
                        w0.rec(e).coordinates.tile_x_spec(), w0.rec(e).coordinates.tile_y_spec());
                    if w0.eidx(e) == idx as int {
                        assert(w1.occupancy@[idx as int]@[k]
                            == w0.occupancy@[idx as int]@.push(id)[k]);
                        assert(w1.occupancy@[w1.eidx(e)]@[k] as int == e);
                    } else {
                        assert(w1.occupancy@[w0.eidx(e)] == w0.occupancy@[w0.eidx(e)]);
                        assert(w1.occupancy@[w1.eidx(e)]@[k] as int == e);
                    }
                } else {
                    assert(w1.rec(e) == record);
                    let n = w1.occupancy@[idx as int]@.len() - 1;
                    assert(w1.occupancy@[idx as int]@[n] as int == e);
                }
            }
            assert forall |i: int, k: int|
                    0 <= i < w1.occupancy@.len() && 0 <= k < w1.occupancy@[i]@.len()
                implies {
                    let e = (#[trigger] w1.occupancy@[i]@[k]) as int;
                    w1.alive(e) && w1.eidx(e) == i
                } by {
                if i == idx && k == w1.occupancy@[i]@.len() - 1 {
                    assert(w1.occupancy@[i]@[k] as int == id);
                } else {
                    let e = (w0.occupancy@[i]@[k]) as int;
                    assert(w0.alive(e) && w0.eidx(e) == i);
                }
            }
            assert forall |i: int, k1: int, k2: int|
                    0 <= i < w1.occupancy@.len() && 0 <= k1 < w1.occupancy@[i]@.len()
                        && 0 <= k2 < w1.occupancy@[i]@.len()
                        && (#[trigger] w1.occupancy@[i]@[k1]) == (#[trigger] w1.occupancy@[i]@[k2])
                implies k1 == k2 by {
                let last = w1.occupancy@[idx as int]@.len() - 1;
                if i == idx && (k1 == last || k2 == last) {
                    if k1 != k2 {
                        if k1 == last {
                            let e2 = (w0.occupancy@[i]@[k2]) as int;
                            assert(w0.alive(e2));
                            assert(e2 < id);
                        } else {
                            let e1 = (w0.occupancy@[i]@[k1]) as int;
                            assert(w0.alive(e1));
                            assert(e1 < id);
                        }
                    }
                } else {
                    assert(w0.occupancy@[i]@[k1] == w1.occupancy@[i]@[k1]);
                    assert(w0.occupancy@[i]@[k2] == w1.occupancy@[i]@[k2]);
                }
            }
            assert(w1.occ_wf());
        }
        self.refresh_tile(idx);
        proof {
            let w2 = *self;
            lemma_occ_wf_transfer(w1, w2);
            assert forall |i: int| 0 <= i < w2.grid.count_spec()
                implies #[trigger] w2.motion_blocked.0@[i]
                    == (w2.grid.tiles@[i] is Wall || w2.occupant_blocks_motion(i))
                    && #[trigger] w2.visibility_blocked.0@[i]
                        == (w2.grid.tiles@[i] is Wall || w2.occupant_blocks_visibility(i))
                    && #[trigger] w2.collisions_monitored.0@[i] == w2.occupant_monitors(i) by {
                if i == idx {
                    lemma_same_bucket_same_flags(w1, w2, i);
                } else {
                    lemma_same_bucket_same_flags(w0, w2, i);
                    assert(w2.motion_blocked.0@[i] == w0.motion_blocked.0@[i]);
                    assert(w2.visibility_blocked.0@[i] == w0.visibility_blocked.0@[i]);
                    assert(w2.collisions_monitored.0@[i] == w0.collisions_monitored.0@[i]);
                }
            }
            assert forall |e2: int| #[trigger] w2.alive(e2) implies {
                let r2 = w2.rec(e2);
                -1000000 <= r2.velocity.x <= 1000000
                    && -1000000 <= r2.velocity.y <= 1000000 && r2.speed.0 <= 1000000
            } by {
                if e2 != id as int {
                    assert(w0.alive(e2));
                }
            }
        }
        id
    }

    /// Move an entity to a new position. With the new position off the
    /// grid the update is a silent no-op. Otherwise the entity leaves
    /// its old tile's occupancy set, enters the new tile's, and both
    /// tiles' blocking flags are recomputed, so the index and the
    /// bitmaps stay exact.
    pub fn update_entity_position(&mut self, e: usize, new_coordinates: Coordinates)
        requires
            old(self).wf(),
            old(self).alive(e as int),
        ensures
            final(self).wf(),
            final(self).grid == old(self).grid,
            final(self).entities@.len() == old(self).entities@.len(),
            final(self).viewsheds == old(self).viewsheds,
            final(self).paths == old(self).paths,
            final(self).visible_tiles == old(self).visible_tiles,
            final(self).revealed_tiles == old(self).revealed_tiles,
            forall |e2: int| 0 <= e2 < old(self).entities@.len() && e2 != e
                ==> #[trigger] final(self).entities@[e2] == old(self).entities@[e2],
            if new_coordinates.in_grid(old(self).grid.width as int, old(self).grid.height as int) {
                final(self).alive(e as int)
                    && final(self).rec(e as int) == (EntityRecord {
                        coordinates: new_coordinates,
                        ..old(self).rec(e as int)
                    })
            } else {
                final(self).entities@[e as int] == old(self).entities@[e as int]
                    && final(self).occupancy == old(self).occupancy
                    && final(self).motion_blocked == old(self).motion_blocked
                    && final(self).visibility_blocked == old(self).visibility_blocked
                    && final(self).collisions_monitored == old(self).collisions_monitored
            },
    {
        let w = self.grid.width;
        let h = self.grid.height;
        if !(new_coordinates.x >= 0 && new_coordinates.y >= 0
            && new_coordinates.x < (w as i64) * 1000 && new_coordinates.y < (h as i64) * 1000) {
            return;
        }
        let ghost w0 = *self;
        let r = match &self.entities[e] {
            Some(rr) => *rr,
            None => unreached(),
        };
        let oldidx = r.coordinates.to_index(w);
        let newidx = new_coordinates.to_index(w);
        proof {
            lemma_index_in_range(w as int, h as int,
                r.coordinates.tile_x_spec(), r.coordinates.tile_y_spec());
            lemma_index_in_range(w as int, h as int,
                new_coordinates.tile_x_spec(), new_coordinates.tile_y_spec());
        }
        let updated = EntityRecord { coordinates: new_coordinates, ..r };
        self.entities.set(e, Some(updated));
        if oldidx == newidx {
            // Same tile: the index and the bitmaps are untouched.
            proof {
                let w2 = *self;
                assert forall |e2: int| #[trigger] w2.alive(e2)
                    implies w2.rec(e2).coordinates.in_grid(w as int, h as int)
                        && w2.occupies(w2.eidx(e2), e2) by {
                    assert(w0.alive(e2));
                    assert(w0.occupies(w0.eidx(e2), e2));
                    assert(w2.eidx(e2) == w0.eidx(e2));
                    let k = choose |k: int| 0 <= k < w0.occupancy@[w0.eidx(e2)]@.len()
                        && (#[trigger] w0.occupancy@[w0.eidx(e2)]@[k]) as int == e2;
                    assert(w2.occupancy@[w2.eidx(e2)]@[k] as int == e2);
                }
                assert forall |i: int, k: int|
                        0 <= i < w2.occupancy@.len() && 0 <= k < w2.occupancy@[i]@.len()
                    implies {
                        let e2 = (#[trigger] w2.occupancy@[i]@[k]) as int;
                        w2.alive(e2) && w2.eidx(e2) == i
                    } by {
                    let e2 = (w0.occupancy@[i]@[k]) as int;
                    assert(w0.alive(e2) && w0.eidx(e2) == i);
                    assert(w2.eidx(e2) == w0.eidx(e2));
                }
                assert(w2.occ_wf());
                assert forall |i: int| 0 <= i < w2.grid.count_spec()
                    implies #[trigger] w2.motion_blocked.0@[i]
                        == (w2.grid.tiles@[i] is Wall || w2.occupant_blocks_motion(i))
                        && #[trigger] w2.visibility_blocked.0@[i]
                            == (w2.grid.tiles@[i] is Wall || w2.occupant_blocks_visibility(i))
                        && #[trigger] w2.collisions_monitored.0@[i] == w2.occupant_monitors(i) by {
                    lemma_same_bucket_same_flags(w0, w2, i);
                }
            assert forall |e2: int| #[trigger] w2.alive(e2) implies {
                let r2 = w2.rec(e2);
                -1000000 <= r2.velocity.x <= 1000000
                    && -1000000 <= r2.velocity.y <= 1000000 && r2.speed.0 <= 1000000
            } by {
                if e2 != e as int {
                    assert(w0.alive(e2));
                }
            }
            }
            return;
        }
        proof {
            assert(w0.occupies(oldidx as int, e as int));
            let k = choose |k: int| 0 <= k < w0.occupancy@[oldidx as int]@.len()
                && (#[trigger] w0.occupancy@[oldidx as int]@[k]) as int == e;
            assert(self.occupancy@[oldidx as int]@[k] == e);
        }
        let ghost occ0 = self.occupancy@;
        let kpos = bucket_remove(&mut self.occupancy, oldidx, e);
        bucket_push(&mut self.occupancy, newidx, e);
        let ghost w1 = *self;
        proof {
            let oi = oldidx as int;
            let ni = newidx as int;
            let removed = occ0[oi]@.remove(kpos as int);
            // Membership in the shrunk old bucket, position-shifted.
            assert forall |e2: int| #[trigger] w1.alive(e2)
                implies w1.rec(e2).coordinates.in_grid(w as int, h as int)
                    && w1.occupies(w1.eidx(e2), e2) by {
                if e2 == e {
                    let n = w1.occupancy@[ni]@.len() - 1;
                    assert(w1.occupancy@[ni]@[n] as int == e2);
                    assert(w1.eidx(e2) == ni);
                } else {
                    assert(w0.alive(e2));
                    assert(w0.occupies(w0.eidx(e2), e2));
                    assert(w1.eidx(e2) == w0.eidx(e2));
                    let k = choose |k: int| 0 <= k < w0.occupancy@[w0.eidx(e2)]@.len()
                        && (#[trigger] w0.occupancy@[w0.eidx(e2)]@[k]) as int == e2;
                    if w0.eidx(e2) == oi {
                        assert(k != kpos) by {
                            if k == kpos {
                                assert(occ0[oi]@[kpos as int] as int == e as int);
                            }
                        }
                        if k < kpos {
                            assert(w1.occupancy@[oi]@[k] == occ0[oi]@[k]);
                            assert(w1.occupancy@[oi]@[k] as int == e2);
                        } else {
                            assert(w1.occupancy@[oi]@[k - 1] == occ0[oi]@[k]);
                            assert(w1.occupancy@[oi]@[k - 1] as int == e2);
                        }
                    } else if w0.eidx(e2) == ni {
                        assert(w1.occupancy@[ni]@[k]
                            == occ0[ni]@.push(e)[k]);
                        assert(w1.occupancy@[ni]@[k] as int == e2);
                    } else {
                        lemma_index_in_range(w0.grid.width as int, w0.grid.height as int,
                            w0.rec(e2).coordinates.tile_x_spec(),
                            w0.rec(e2).coordinates.tile_y_spec());
                        assert(w1.occupancy@[w0.eidx(e2)] == occ0[w0.eidx(e2)]);
                        assert(w1.occupancy@[w1.eidx(e2)]@[k] as int == e2);
                    }
                }
            }
            // Every recorded occupant is alive and in the right tile.
            assert forall |i: int, k: int|
                    0 <= i < w1.occupancy@.len() && 0 <= k < w1.occupancy@[i]@.len()
                implies {
                    let e2 = (#[trigger] w1.occupancy@[i]@[k]) as int;
                    w1.alive(e2) && w1.eidx(e2) == i
                } by {
                if i == ni && k == w1.occupancy@[ni]@.len() - 1 {
                    assert(w1.occupancy@[i]@[k] as int == e as int);
                    assert(w1.eidx(e as int) == ni);
                } else if i == oi {
                    let e2 = (w1.occupancy@[oi]@[k]) as int;
                    if k < kpos {
                        assert(w1.occupancy@[oi]@[k] == occ0[oi]@[k]);
                        assert(w0.alive(e2) && w0.eidx(e2) == oi);
                    } else {
                        assert(w1.occupancy@[oi]@[k] == occ0[oi]@[k + 1]);
                        assert(w0.alive(e2) && w0.eidx(e2) == oi);
                    }
                    assert(e2 != e) by {
                        if e2 == e {
                            assert(occ0[oi]@[kpos as int] as int == e as int);
                        }
                    }
                    assert(w1.eidx(e2) == w0.eidx(e2));
                } else {
                    let e2 = (w1.occupancy@[i]@[k]) as int;
                    assert(w0.occupancy@[i]@[k] as int == e2);
                    assert(w0.alive(e2) && w0.eidx(e2) == i);
                    assert(e2 != e) by {
                        if e2 == e {
                            assert(w0.eidx(e as int) == oi);
                        }
                    }
                    assert(w1.eidx(e2) == w0.eidx(e2));
                }
            }
            // No duplicate positions.
            assert forall |i: int, k1: int, k2: int|
                    0 <= i < w1.occupancy@.len() && 0 <= k1 < w1.occupancy@[i]@.len()
                        && 0 <= k2 < w1.occupancy@[i]@.len()
                        && (#[trigger] w1.occupancy@[i]@[k1]) == (#[trigger] w1.occupancy@[i]@[k2])
                implies k1 == k2 by {
                if i == oi {
                    let j1: int = if k1 < kpos { k1 } else { k1 + 1 };
                    let j2: int = if k2 < kpos { k2 } else { k2 + 1 };
                    assert(w1.occupancy@[oi]@[k1] == occ0[oi]@[j1]);
                    assert(w1.occupancy@[oi]@[k2] == occ0[oi]@[j2]);
                    assert(j1 == j2);
                } else if i == ni {
                    let last = w1.occupancy@[ni]@.len() - 1;
                    if k1 != k2 {
                        if k1 == last || k2 == last {
                            let ko: int = if k1 == last { k2 } else { k1 };
                            let e2 = (occ0[ni]@[ko]) as int;
                            assert(w0.alive(e2) && w0.eidx(e2) == ni);
                            assert(e2 != e) by {
                                if e2 == e {
                                    assert(w0.eidx(e as int) == oi);
                                }
                            }
                        } else {
                            assert(w1.occupancy@[ni]@[k1] == occ0[ni]@[k1]);
                            assert(w1.occupancy@[ni]@[k2] == occ0[ni]@[k2]);
                        }
                    }
                }
            }
            assert(w1.occ_wf());
        }
        self.refresh_tile(oldidx);
        proof {
            lemma_occ_wf_transfer(w1, *self);
        }
        let ghost w2 = *self;
        self.refresh_tile(newidx);
        proof {
            let w3 = *self;
            lemma_occ_wf_transfer(w2, w3);
            assert forall |i: int| 0 <= i < w3.grid.count_spec()
                implies #[trigger] w3.motion_blocked.0@[i]
                    == (w3.grid.tiles@[i] is Wall || w3.occupant_blocks_motion(i))
                    && #[trigger] w3.visibility_blocked.0@[i]
                        == (w3.grid.tiles@[i] is Wall || w3.occupant_blocks_visibility(i))
                    && #[trigger] w3.collisions_monitored.0@[i] == w3.occupant_monitors(i) by {
                if i == newidx {
                    lemma_same_bucket_same_flags(w2, w3, i);
                } else if i == oldidx {
                    lemma_same_bucket_same_flags(w1, w3, i);
                    assert(w3.motion_blocked.0@[i] == w2.motion_blocked.0@[i]);
                } else {
                    lemma_same_bucket_same_flags(w0, w3, i);
                    assert(w3.motion_blocked.0@[i] == w0.motion_blocked.0@[i]);
                    assert(w3.visibility_blocked.0@[i] == w0.visibility_blocked.0@[i]);
                    assert(w3.collisions_monitored.0@[i] == w0.collisions_monitored.0@[i]);
                }
            }
            assert forall |e2: int| #[trigger] w3.alive(e2) implies {
                let r2 = w3.rec(e2);
                -1000000 <= r2.velocity.x <= 1000000
                    && -1000000 <= r2.velocity.y <= 1000000 && r2.speed.0 <= 1000000
            } by {
                if e2 != e as int {
                    assert(w0.alive(e2));
                }
            }
        }
    }
}

impl World {
    /// Replace a live entity's record without moving it between tiles
    /// and without changing its blocking capabilities: the spatial
    /// index and the bitmaps are untouched.
    fn replace_record(&mut self, e: usize, updated: EntityRecord)
        requires
            old(self).wf(),
            old(self).alive(e as int),
            updated.coordinates == old(self).rec(e as int).coordinates,
            updated.blocks_motion == old(self).rec(e as int).blocks_motion,
            updated.blocks_visibility == old(self).rec(e as int).blocks_visibility,
            updated.monitors_collisions == old(self).rec(e as int).monitors_collisions,
            -1000000 <= updated.velocity.x <= 1000000,
            -1000000 <= updated.velocity.y <= 1000000,
            updated.speed.0 <= 1000000,
        ensures
            final(self).wf(),
            final(self).grid == old(self).grid,
            final(self).occupancy == old(self).occupancy,
            final(self).viewsheds == old(self).viewsheds,
            final(self).paths == old(self).paths,
            final(self).motion_blocked == old(self).motion_blocked,
            final(self).visibility_blocked == old(self).visibility_blocked,
            final(self).collisions_monitored == old(self).collisions_monitored,
            final(self).visible_tiles == old(self).visible_tiles,
            final(self).revealed_tiles == old(self).revealed_tiles,
            final(self).entities@.len() == old(self).entities@.len(),
            final(self).entities@[e as int] == Some(updated),
            forall |e2: int| 0 <= e2 < old(self).entities@.len() && e2 != e
                ==> #[trigger] final(self).entities@[e2] == old(self).entities@[e2],
    {
        let ghost w0 = *self;
        self.entities.set(e, Some(updated));
        proof {
            let w2 = *self;
            assert forall |e2: int| #[trigger] w2.alive(e2)
                implies w2.rec(e2).coordinates.in_grid(w2.grid.width as int,
                        w2.grid.height as int)
                    && w2.occupies(w2.eidx(e2), e2) by {
                assert(w0.alive(e2));
                assert(w0.occupies(w0.eidx(e2), e2));
                assert(w2.eidx(e2) == w0.eidx(e2));
                let k = choose |k: int| 0 <= k < w0.occupancy@[w0.eidx(e2)]@.len()
                    && (#[trigger] w0.occupancy@[w0.eidx(e2)]@[k]) as int == e2;
                assert(w2.occupancy@[w2.eidx(e2)]@[k] as int == e2);
            }
            assert forall |i: int, k: int|
                    0 <= i < w2.occupancy@.len() && 0 <= k < w2.occupancy@[i]@.len()
                implies {
                    let e2 = (#[trigger] w2.occupancy@[i]@[k]) as int;
                    w2.alive(e2) && w2.eidx(e2) == i
                } by {
                let e2 = (w0.occupancy@[i]@[k]) as int;
                assert(w0.alive(e2) && w0.eidx(e2) == i);
                assert(w2.eidx(e2) == w0.eidx(e2));
            }
            assert(w2.occ_wf());
            assert forall |i: int| 0 <= i < w2.grid.count_spec()
                implies #[trigger] w2.motion_blocked.0@[i]
                    == (w2.grid.tiles@[i] is Wall || w2.occupant_blocks_motion(i))
                    && #[trigger] w2.visibility_blocked.0@[i]
                        == (w2.grid.tiles@[i] is Wall || w2.occupant_blocks_visibility(i))
                    && #[trigger] w2.collisions_monitored.0@[i] == w2.occupant_monitors(i) by {
                lemma_same_bucket_same_flags(w0, w2, i);
            }
            assert forall |e2: int| #[trigger] w2.alive(e2) implies {
                let r2 = w2.rec(e2);
                -1000000 <= r2.velocity.x <= 1000000
                    && -1000000 <= r2.velocity.y <= 1000000 && r2.speed.0 <= 1000000
            } by {
                if e2 != e as int {
                    assert(w0.alive(e2));
                }
            }
        }
    }

    /// Attach or replace the entity's navigation request.
    pub fn set_destination(&mut self, e: usize, destination: Option<Destination>)
        requires
            old(self).wf(),
            old(self).alive(e as int),
        ensures
            final(self).wf(),
            final(self).alive(e as int),
            final(self).rec(e as int)
                == (EntityRecord { destination, ..old(self).rec(e as int) }),
            final(self).grid == old(self).grid,
            final(self).occupancy == old(self).occupancy,
            final(self).viewsheds == old(self).viewsheds,
            final(self).paths == old(self).paths,
            final(self).motion_blocked == old(self).motion_blocked,
            final(self).visibility_blocked == old(self).visibility_blocked,
            final(self).collisions_monitored == old(self).collisions_monitored,
            final(self).visible_tiles == old(self).visible_tiles,
            final(self).revealed_tiles == old(self).revealed_tiles,
            final(self).entities@.len() == old(self).entities@.len(),
            forall |e2: int| 0 <= e2 < old(self).entities@.len() && e2 != e
                ==> #[trigger] final(self).entities@[e2] == old(self).entities@[e2],
    {
        let r = match &self.entities[e] {
            Some(rr) => *rr,
            None => unreached(),
        };
        proof {
            assert(old(self).alive(e as int));
        }
        self.replace_record(e, EntityRecord { destination, ..r });
    }

    /// Set the entity's velocity for the coming tick.
    pub fn set_velocity(&mut self, e: usize, velocity: Velocity)
        requires
            old(self).wf(),
            old(self).alive(e as int),
            -1000000 <= velocity.x <= 1000000,
            -1000000 <= velocity.y <= 1000000,
        ensures
            final(self).wf(),
            final(self).alive(e as int),
            final(self).rec(e as int)
                == (EntityRecord { velocity, ..old(self).rec(e as int) }),
            final(self).grid == old(self).grid,
            final(self).occupancy == old(self).occupancy,
            final(self).entities@.len() == old(self).entities@.len(),
            final(self).viewsheds == old(self).viewsheds,
            final(self).paths == old(self).paths,
            final(self).motion_blocked == old(self).motion_blocked,
            final(self).visibility_blocked == old(self).visibility_blocked,
            final(self).collisions_monitored == old(self).collisions_monitored,
            final(self).visible_tiles == old(self).visible_tiles,
            final(self).revealed_tiles == old(self).revealed_tiles,
            forall |e2: int| 0 <= e2 < old(self).entities@.len() && e2 != e
                ==> #[trigger] final(self).entities@[e2] == old(self).entities@[e2],
    {
        let r = match &self.entities[e] {
            Some(rr) => *rr,
            None => unreached(),
        };
        self.replace_record(e, EntityRecord { velocity, ..r });
    }

    /// Store or clear a computed path for an entity.
    pub fn set_path(&mut self, e: usize, path: Option<Path>)
        requires
            old(self).wf(),
            e < old(self).entities@.len(),
        ensures
            final(self).wf(),
            final(self).paths@ == old(self).paths@.update(e as int, path),
            final(self).entities == old(self).entities,
            final(self).viewsheds == old(self).viewsheds,
            final(self).grid == old(self).grid,
            final(self).occupancy == old(self).occupancy,
            final(self).motion_blocked == old(self).motion_blocked,
            final(self).visibility_blocked == old(self).visibility_blocked,
            final(self).collisions_monitored == old(self).collisions_monitored,
            final(self).visible_tiles == old(self).visible_tiles,
            final(self).revealed_tiles == old(self).revealed_tiles,
    {
        let ghost w0 = *self;
        self.paths.set(e, path);
        proof {
            lemma_occ_wf_transfer(w0, *self);
            assert forall |i: int| 0 <= i < self.grid.count_spec()
                implies #[trigger] self.motion_blocked.0@[i]
                    == (self.grid.tiles@[i] is Wall || self.occupant_blocks_motion(i))
                    && #[trigger] self.visibility_blocked.0@[i]
                        == (self.grid.tiles@[i] is Wall || self.occupant_blocks_visibility(i))
                    && #[trigger] self.collisions_monitored.0@[i]
                        == self.occupant_monitors(i) by {
                lemma_same_bucket_same_flags(w0, *self, i);
            }
            assert forall |e2: int| #[trigger] self.alive(e2) implies {
                let r = self.rec(e2);
                -1000000 <= r.velocity.x <= 1000000
                    && -1000000 <= r.velocity.y <= 1000000 && r.speed.0 <= 1000000
            } by {
                assert(w0.alive(e2));
            }
        }
    }

    /// Store or clear an entity's viewshed.
    pub fn set_viewshed(&mut self, e: usize, viewshed: Option<Viewshed>)
        requires
            old(self).wf(),
            e < old(self).entities@.len(),
        ensures
            final(self).wf(),
            final(self).viewsheds@ == old(self).viewsheds@.update(e as int, viewshed),
            final(self).entities == old(self).entities,
            final(self).paths == old(self).paths,
            final(self).grid == old(self).grid,
            final(self).occupancy == old(self).occupancy,
            final(self).motion_blocked == old(self).motion_blocked,
            final(self).visibility_blocked == old(self).visibility_blocked,
            final(self).collisions_monitored == old(self).collisions_monitored,
            final(self).visible_tiles == old(self).visible_tiles,
            final(self).revealed_tiles == old(self).revealed_tiles,
    {
        let ghost w0 = *self;
        self.viewsheds.set(e, viewshed);
        proof {
            lemma_occ_wf_transfer(w0, *self);
            assert forall |i: int| 0 <= i < self.grid.count_spec()
                implies #[trigger] self.motion_blocked.0@[i]
                    == (self.grid.tiles@[i] is Wall || self.occupant_blocks_motion(i))
                    && #[trigger] self.visibility_blocked.0@[i]
                        == (self.grid.tiles@[i] is Wall || self.occupant_blocks_visibility(i))
                    && #[trigger] self.collisions_monitored.0@[i]
                        == self.occupant_monitors(i) by {
                lemma_same_bucket_same_flags(w0, *self, i);
            }
            assert forall |e2: int| #[trigger] self.alive(e2) implies {
                let r = self.rec(e2);
                -1000000 <= r.velocity.x <= 1000000
                    && -1000000 <= r.velocity.y <= 1000000 && r.speed.0 <= 1000000
            } by {
                assert(w0.alive(e2));
            }
        }
    }

    /// Change an entity's blocking capabilities in place. Its tile's
    /// flags are recomputed from the tile kind and all remaining
    /// occupants, so removing a capability never leaves a stale flag.
    pub fn set_capabilities(
        &mut self,
        e: usize,
        blocks_motion: bool,
        blocks_visibility: bool,
        monitors_collisions: bool,
    )
        requires
            old(self).wf(),
            old(self).alive(e as int),
        ensures
            final(self).wf(),
            final(self).alive(e as int),
            final(self).rec(e as int) == (EntityRecord {
                blocks_motion,
                blocks_visibility,
                monitors_collisions,
                ..old(self).rec(e as int)
            }),
            final(self).grid == old(self).grid,
            final(self).entities@.len() == old(self).entities@.len(),
            final(self).occupancy == old(self).occupancy,
            final(self).viewsheds == old(self).viewsheds,
            final(self).paths == old(self).paths,
            forall |e2: int| 0 <= e2 < old(self).entities@.len() && e2 != e
                ==> #[trigger] final(self).entities@[e2] == old(self).entities@[e2],
    {
        let ghost w0 = *self;
        let r = match &self.entities[e] {
            Some(rr) => *rr,
            None => unreached(),
        };
        let idx = r.coordinates.to_index(self.grid.width);
        proof {
            lemma_index_in_range(self.grid.width as int, self.grid.height as int,
                r.coordinates.tile_x_spec(), r.coordinates.tile_y_spec());
        }
        let updated = EntityRecord {
            blocks_motion,
            blocks_visibility,
            monitors_collisions,
            ..r
        };
        self.entities.set(e, Some(updated));
        let ghost w1 = *self;
        proof {
            assert forall |e2: int| #[trigger] w1.alive(e2)
                implies w1.rec(e2).coordinates.in_grid(w1.grid.width as int,
                        w1.grid.height as int)
                    && w1.occupies(w1.eidx(e2), e2) by {
                assert(w0.alive(e2));
                assert(w0.occupies(w0.eidx(e2), e2));
                assert(w1.eidx(e2) == w0.eidx(e2));
                let k = choose |k: int| 0 <= k < w0.occupancy@[w0.eidx(e2)]@.len()
                    && (#[trigger] w0.occupancy@[w0.eidx(e2)]@[k]) as int == e2;
                assert(w1.occupancy@[w1.eidx(e2)]@[k] as int == e2);
            }
            assert forall |i: int, k: int|
                    0 <= i < w1.occupancy@.len() && 0 <= k < w1.occupancy@[i]@.len()
                implies {
                    let e2 = (#[trigger] w1.occupancy@[i]@[k]) as int;
                    w1.alive(e2) && w1.eidx(e2) == i
                } by {
                let e2 = (w0.occupancy@[i]@[k]) as int;
                assert(w0.alive(e2) && w0.eidx(e2) == i);
                assert(w1.eidx(e2) == w0.eidx(e2));
            }
            assert(w1.occ_wf());
        }
        self.refresh_tile(idx);
        proof {
            let w2 = *self;
            lemma_occ_wf_transfer(w1, w2);
            assert forall |i: int| 0 <= i < w2.grid.count_spec()
                implies #[trigger] w2.motion_blocked.0@[i]
                    == (w2.grid.tiles@[i] is Wall || w2.occupant_blocks_motion(i))
                    && #[trigger] w2.visibility_blocked.0@[i]
                        == (w2.grid.tiles@[i] is Wall || w2.occupant_blocks_visibility(i))
                    && #[trigger] w2.collisions_monitored.0@[i] == w2.occupant_monitors(i) by {
                if i == idx {
                    lemma_same_bucket_same_flags(w1, w2, i);
                } else {
                    lemma_same_bucket_same_flags(w0, w2, i);
                    // Entity e sits in tile idx only, so other tiles kept
                    // both their occupants and their occupants' flags.
                    assert forall |k: int| 0 <= k < w0.occupancy@[i]@.len()
                        implies (#[trigger] w0.occupancy@[i]@[k]) as int != e as int by {
                        if w0.occupancy@[i]@[k] as int == e as int {
                            assert(w0.eidx(e as int) == i);
                        }
                    }
                    assert(w2.motion_blocked.0@[i] == w0.motion_blocked.0@[i]);
                    assert(w2.visibility_blocked.0@[i] == w0.visibility_blocked.0@[i]);
                    assert(w2.collisions_monitored.0@[i] == w0.collisions_monitored.0@[i]);
                }
            }
            assert forall |e2: int| #[trigger] w2.alive(e2) implies {
                let r2 = w2.rec(e2);
                -1000000 <= r2.velocity.x <= 1000000
                    && -1000000 <= r2.velocity.y <= 1000000 && r2.speed.0 <= 1000000
            } by {
                if e2 != e as int {
                    assert(w0.alive(e2));
                }
            }
        }
    }

    /// Delete an entity: it leaves its last tile's occupancy set, the
    /// tile's blocking flags are recomputed from the remaining
    /// occupants, and the record slot is cleared.
    pub fn despawn(&mut self, e: usize)
        requires
            old(self).wf(),
            old(self).alive(e as int),
        ensures
            final(self).wf(),
            final(self).grid == old(self).grid,
            final(self).entities@.len() == old(self).entities@.len(),
            final(self).entities@[e as int] is None,
            forall |e2: int| 0 <= e2 < old(self).entities@.len() && e2 != e
                ==> #[trigger] final(self).entities@[e2] == old(self).entities@[e2],
            final(self).visible_tiles == old(self).visible_tiles,
            final(self).revealed_tiles == old(self).revealed_tiles,
    {
        let ghost w0 = *self;
        let r = match &self.entities[e] {
            Some(rr) => *rr,
            None => unreached(),
        };
        let idx = r.coordinates.to_index(self.grid.width);
        proof {
            lemma_index_in_range(self.grid.width as int, self.grid.height as int,
                r.coordinates.tile_x_spec(), r.coordinates.tile_y_spec());
            assert(w0.occupies(idx as int, e as int));
            let k = choose |k: int| 0 <= k < w0.occupancy@[idx as int]@.len()
                && (#[trigger] w0.occupancy@[idx as int]@[k]) as int == e;
            assert(self.occupancy@[idx as int]@[k] == e);
        }
        let ghost occ0 = self.occupancy@;
        let kpos = bucket_remove(&mut self.occupancy, idx, e);
        self.entities.set(e, None);
        let ghost w1 = *self;
        proof {
            let oi = idx as int;
            assert forall |e2: int| #[trigger] w1.alive(e2)
                implies w1.rec(e2).coordinates.in_grid(w1.grid.width as int,
                        w1.grid.height as int)
                    && w1.occupies(w1.eidx(e2), e2) by {
                assert(e2 != e);
                assert(w0.alive(e2));
                assert(w0.occupies(w0.eidx(e2), e2));
                assert(w1.eidx(e2) == w0.eidx(e2));
                let k = choose |k: int| 0 <= k < w0.occupancy@[w0.eidx(e2)]@.len()
                    && (#[trigger] w0.occupancy@[w0.eidx(e2)]@[k]) as int == e2;
                if w0.eidx(e2) == oi {
                    assert(k != kpos) by {
                        if k == kpos {
                            assert(occ0[oi]@[kpos as int] as int == e as int);
                        }
                    }
                    if k < kpos {
                        assert(w1.occupancy@[oi]@[k] == occ0[oi]@[k]);
                        assert(w1.occupancy@[oi]@[k] as int == e2);
                    } else {
                        assert(w1.occupancy@[oi]@[k - 1] == occ0[oi]@[k]);
                        assert(w1.occupancy@[oi]@[k - 1] as int == e2);
                    }
                } else {
                    lemma_index_in_range(w0.grid.width as int, w0.grid.height as int,
                        w0.rec(e2).coordinates.tile_x_spec(),
                        w0.rec(e2).coordinates.tile_y_spec());
                    assert(w1.occupancy@[w0.eidx(e2)] == occ0[w0.eidx(e2)]);
                    assert(w1.occupancy@[w1.eidx(e2)]@[k] as int == e2);
                }
            }
            assert forall |i: int, k: int|
                    0 <= i < w1.occupancy@.len() && 0 <= k < w1.occupancy@[i]@.len()
                implies {
                    let e2 = (#[trigger] w1.occupancy@[i]@[k]) as int;
                    w1.alive(e2) && w1.eidx(e2) == i
                } by {
                if i == oi {
                    let e2 = (w1.occupancy@[oi]@[k]) as int;
                    if k < kpos {
                        assert(w1.occupancy@[oi]@[k] == occ0[oi]@[k]);
                        assert(w0.alive(e2) && w0.eidx(e2) == oi);
                    } else {
                        assert(w1.occupancy@[oi]@[k] == occ0[oi]@[k + 1]);
                        assert(w0.alive(e2) && w0.eidx(e2) == oi);
                    }
                    assert(e2 != e) by {
                        if e2 == e {
                            assert(occ0[oi]@[kpos as int] as int == e as int);
                        }
                    }
                    assert(w1.eidx(e2) == w0.eidx(e2));
                } else {
                    let e2 = (w1.occupancy@[i]@[k]) as int;
                    assert(w0.occupancy@[i]@[k] as int == e2);
                    assert(w0.alive(e2) && w0.eidx(e2) == i);
                    assert(e2 != e) by {
                        if e2 == e {
                            assert(w0.eidx(e as int) == oi);
                        }
                    }
                    assert(w1.eidx(e2) == w0.eidx(e2));
                }
            }
            assert forall |i: int, k1: int, k2: int|
                    0 <= i < w1.occupancy@.len() && 0 <= k1 < w1.occupancy@[i]@.len()
                        && 0 <= k2 < w1.occupancy@[i]@.len()
                        && (#[trigger] w1.occupancy@[i]@[k1]) == (#[trigger] w1.occupancy@[i]@[k2])
                implies k1 == k2 by {
                if i == oi {
                    let j1: int = if k1 < kpos { k1 } else { k1 + 1 };
                    let j2: int = if k2 < kpos { k2 } else { k2 + 1 };
                    assert(w1.occupancy@[oi]@[k1] == occ0[oi]@[j1]);
                    assert(w1.occupancy@[oi]@[k2] == occ0[oi]@[j2]);
                    assert(j1 == j2);
                }
            }
            assert(w1.occ_wf());
        }
        self.refresh_tile(idx);
        proof {
            let w2 = *self;
            lemma_occ_wf_transfer(w1, w2);
            assert forall |i: int| 0 <= i < w2.grid.count_spec()
                implies #[trigger] w2.motion_blocked.0@[i]
                    == (w2.grid.tiles@[i] is Wall || w2.occupant_blocks_motion(i))
                    && #[trigger] w2.visibility_blocked.0@[i]
                        == (w2.grid.tiles@[i] is Wall || w2.occupant_blocks_visibility(i))
                    && #[trigger] w2.collisions_monitored.0@[i] == w2.occupant_monitors(i) by {
                if i == idx {
                    lemma_same_bucket_same_flags(w1, w2, i);
                } else {
                    assert forall |k: int| 0 <= k < w0.occupancy@[i]@.len()
                        implies (#[trigger] w0.occupancy@[i]@[k]) as int != e as int by {
                        if w0.occupancy@[i]@[k] as int == e as int {
                            assert(w0.eidx(e as int) == i);
                        }
                    }
                    lemma_same_bucket_same_flags(w0, w2, i);
                    assert(w2.motion_blocked.0@[i] == w0.motion_blocked.0@[i]);
                    assert(w2.visibility_blocked.0@[i] == w0.visibility_blocked.0@[i]);
                    assert(w2.collisions_monitored.0@[i] == w0.collisions_monitored.0@[i]);
                }
            }
            assert forall |e2: int| #[trigger] w2.alive(e2) implies {
                let r2 = w2.rec(e2);
                -1000000 <= r2.velocity.x <= 1000000
                    && -1000000 <= r2.velocity.y <= 1000000 && r2.speed.0 <= 1000000
            } by {
                if e2 != e as int {
                    assert(w0.alive(e2));
                }
            }
        }
    }
}

/// The viewsheds of the live player entities, in identifier order.
pub open spec fn players_vs(w: World, n: int) -> Seq<Viewshed>
    decreases n,
{
    if n <= 0 {
        Seq::empty()
    } else {
        players_vs(w, n - 1)
            + if w.alive(n - 1) && w.rec(n - 1).player && w.viewsheds@[n - 1] is Some {
                seq![w.viewsheds@[n - 1]->Some_0]
            } else {
                Seq::empty()
            }
    }
}

/// Worlds with the same records and viewsheds have the same player
/// viewshed list.
proof fn lemma_players_vs_same(w1: World, w2: World, n: int)
    requires
        w1.entities == w2.entities,
        w1.viewsheds == w2.viewsheds,
    ensures
        players_vs(w1, n) == players_vs(w2, n),
    decreases n,
{
    if n > 0 {
        lemma_players_vs_same(w1, w2, n - 1);
        assert(players_vs(w1, n) =~= players_vs(w2, n));
    } else {
        assert(players_vs(w1, n) =~= players_vs(w2, n));
    }
}

impl World {
    /// Recompute every agent's viewshed from scratch against the
    /// current visibility-blocked bitmap: shadow propagation is not
    /// local, so no incremental patching is attempted. Ranges beyond
    /// the largest grid dimension are clamped to it.
    pub fn update_viewsheds(&mut self)
        requires
            old(self).wf(),
        ensures
            final(self).wf(),
            final(self).grid == old(self).grid,
            final(self).entities == old(self).entities,
            final(self).occupancy == old(self).occupancy,
            final(self).paths == old(self).paths,
            final(self).motion_blocked == old(self).motion_blocked,
            final(self).visibility_blocked == old(self).visibility_blocked,
            final(self).collisions_monitored == old(self).collisions_monitored,
            final(self).visible_tiles == old(self).visible_tiles,
            final(self).revealed_tiles == old(self).revealed_tiles,
            final(self).viewsheds@.len() == old(self).viewsheds@.len(),
            forall |e: int| 0 <= e < old(self).viewsheds@.len()
                ==> ((#[trigger] final(self).viewsheds@[e]) is Some
                    <==> old(self).viewsheds@[e] is Some),
            forall |e: int| 0 <= e < old(self).viewsheds@.len()
                    && old(self).viewsheds@[e] is Some && old(self).alive(e)
                ==> {
                    let vs = (#[trigger] final(self).viewsheds@[e])->Some_0;
                    let rg = old(self).viewsheds@[e]->Some_0.range;
                    let rgc: int = if rg <= 4096 { rg as int } else { 4096 };
                    &&& vs.range == rg
                    &&& crate::visibility::cell_set(vs.visible@) == crate::visibility::fov_spec(
                        old(self).visibility_blocked.0@,
                        old(self).grid.width as int, old(self).grid.height as int,
                        old(self).entity_tile_x(e), old(self).entity_tile_y(e), rgc)
                },
    {
        let ghost w0 = *self;
        let n = self.entities.len();
        let mut e: usize = 0;
        while e < n
            invariant
                self.wf(),
                n == w0.entities@.len(),
                e <= n,
                self.grid == w0.grid,
                self.entities == w0.entities,
                self.occupancy == w0.occupancy,
                self.paths == w0.paths,
                self.motion_blocked == w0.motion_blocked,
                self.visibility_blocked == w0.visibility_blocked,
                self.collisions_monitored == w0.collisions_monitored,
                self.visible_tiles == w0.visible_tiles,
                self.revealed_tiles == w0.revealed_tiles,
                self.viewsheds@.len() == w0.viewsheds@.len(),
                forall |e2: int| e <= e2 < n
                    ==> (#[trigger] self.viewsheds@[e2]) == w0.viewsheds@[e2],
                forall |e2: int| 0 <= e2 < n
                    ==> ((#[trigger] self.viewsheds@[e2]) is Some
                        <==> w0.viewsheds@[e2] is Some),
                forall |e2: int| 0 <= e2 < e && w0.viewsheds@[e2] is Some && w0.alive(e2)
                    ==> {
                        let vs = (#[trigger] self.viewsheds@[e2])->Some_0;
                        let rg = w0.viewsheds@[e2]->Some_0.range;
                        let rgc: int = if rg <= 4096 { rg as int } else { 4096 };
                        &&& vs.range == rg
                        &&& crate::visibility::cell_set(vs.visible@)
                            == crate::visibility::fov_spec(
                                w0.visibility_blocked.0@,
                                w0.grid.width as int, w0.grid.height as int,
                                w0.entity_tile_x(e2), w0.entity_tile_y(e2), rgc)
                    },
            decreases n - e,
        {
            let has = match &self.entities[e] {
                Some(_) => true,
                None => false,
            };
            if has {
                let r = match &self.entities[e] {
                    Some(rr) => *rr,
                    None => unreached(),
                };
                let range0 = match &self.viewsheds[e] {
                    Some(v) => Some(v.range),
                    None => None,
                };
                if let Some(rg) = range0 {
                    let rgc: u32 = if rg <= 4096 { rg } else { 4096 };
                    proof {
                        assert(self.alive(e as int));
                    }
                    let tx = r.coordinates.tile_x() as usize;
                    let ty = r.coordinates.tile_y() as usize;
                    let visible = crate::visibility::compute_visible(
                        &self.visibility_blocked, &self.grid, (tx, ty), rgc);
                    self.set_viewshed(e, Some(Viewshed { visible, range: rg }));
                }
            }
            e = e + 1;
        }
    }

    /// The tile column of a live entity's position.
    pub open spec fn entity_tile_x(self, e: int) -> int {
        self.rec(e).coordinates.tile_x_spec()
    }

    /// The tile row of a live entity's position.
    pub open spec fn entity_tile_y(self, e: int) -> int {
        self.rec(e).coordinates.tile_y_spec()
    }

    /// Rebuild the per-grid visible and revealed bitmaps from the
    /// player viewsheds: the visible snapshot is cleared and re-marked,
    /// while the revealed memory only grows.
    pub fn refresh_visibility(&mut self)
        requires
            old(self).wf(),
        ensures
            final(self).wf(),
            final(self).grid == old(self).grid,
            final(self).entities == old(self).entities,
            final(self).occupancy == old(self).occupancy,
            final(self).paths == old(self).paths,
            final(self).viewsheds == old(self).viewsheds,
            final(self).motion_blocked == old(self).motion_blocked,
            final(self).visibility_blocked == old(self).visibility_blocked,
            final(self).collisions_monitored == old(self).collisions_monitored,
            // The snapshot becomes exactly the union of the live player
            // viewsheds.
            forall |i: int| 0 <= i < old(self).grid.count_spec()
                ==> #[trigger] final(self).visible_tiles.0@[i]
                    == seen_by_any(
                        players_vs(*old(self), old(self).entities@.len() as int),
                        old(self).grid.width as int, old(self).grid.height as int, i),
            forall |i: int| 0 <= i < old(self).grid.count_spec()
                ==> #[trigger] final(self).revealed_tiles.0@[i]
                    == (old(self).revealed_tiles.0@[i] || final(self).visible_tiles.0@[i]),
            forall |i: int| 0 <= i < old(self).grid.count_spec()
                    && old(self).revealed_tiles.0@[i]
                ==> final(self).revealed_tiles.0@[i],
    {
        let ghost w0 = *self;
        let n = self.entities.len();
        let mut vs: Vec<Viewshed> = Vec::new();
        let mut e: usize = 0;
        while e < n
            invariant
                *self == w0,
                n == w0.entities@.len(),
                w0.wf(),
                e <= n,
                vs@.len() == players_vs(w0, e as int).len(),
                forall |j: int| 0 <= j < vs@.len() ==> {
                    let o = players_vs(w0, e as int)[j];
                    &&& (#[trigger] vs@[j]).visible@ == o.visible@
                    &&& vs@[j].range == o.range
                },
            decreases n - e,
        {
            let take = match &self.entities[e] {
                Some(rr) => rr.player,
                None => false,
            };
            let ghost vs0 = vs@;
            if take {
                match &self.viewsheds[e] {
                    Some(v) => {
                        vs.push(Viewshed { visible: copy_vec(&v.visible), range: v.range });
                        proof {
                            assert(players_vs(w0, e as int + 1)
                                =~= players_vs(w0, e as int)
                                    + seq![w0.viewsheds@[e as int]->Some_0]);
                        }
                    }
                    None => {
                        proof {
                            assert(players_vs(w0, e as int + 1)
                                =~= players_vs(w0, e as int));
                        }
                    }
                }
            } else {
                proof {
                    assert(players_vs(w0, e as int + 1) =~= players_vs(w0, e as int));
                }
            }
            e = e + 1;
        }
        crate::visibility::map_visibility(
            &mut self.visible_tiles, &mut self.revealed_tiles, &vs, &self.grid);
        proof {
            assert forall |i: int| 0 <= i < w0.grid.count_spec()
                implies #[trigger] self.visible_tiles.0@[i]
                    == seen_by_any(players_vs(w0, n as int),
                        w0.grid.width as int, w0.grid.height as int, i) by {
                lemma_seen_by_any_same_views(vs@, players_vs(w0, n as int),
                    w0.grid.width as int, w0.grid.height as int, i);
            }
            lemma_occ_wf_transfer(w0, *self);
            assert forall |i: int| 0 <= i < self.grid.count_spec()
                implies #[trigger] self.motion_blocked.0@[i]
                    == (self.grid.tiles@[i] is Wall || self.occupant_blocks_motion(i))
                    && #[trigger] self.visibility_blocked.0@[i]
                        == (self.grid.tiles@[i] is Wall || self.occupant_blocks_visibility(i))
                    && #[trigger] self.collisions_monitored.0@[i]
                        == self.occupant_monitors(i) by {
                lemma_same_bucket_same_flags(w0, *self, i);
            }
            assert forall |e2: int| #[trigger] self.alive(e2) implies {
                let r2 = self.rec(e2);
                -1000000 <= r2.velocity.x <= 1000000
                    && -1000000 <= r2.velocity.y <= 1000000 && r2.speed.0 <= 1000000
            } by {
                assert(w0.alive(e2));
            }
        }
    }
}

impl World {
    /// Carve a tile into open floor, as when an exit doorway is cut
    /// into a finished level. The edited tile's blocking flags are
    /// recomputed at once, so no cached bitmap goes stale.
    pub fn carve_floor(&mut self, x: usize, y: usize)
        requires
            old(self).wf(),
            old(self).grid.in_bounds(x as int, y as int),
        ensures
            final(self).wf(),
            final(self).grid.width == old(self).grid.width,
            final(self).grid.height == old(self).grid.height,
            final(self).grid.tiles@ == old(self).grid.tiles@.update(
                old(self).grid.index_of(x as int, y as int), TileType::Floor),
            final(self).entities == old(self).entities,
            final(self).occupancy == old(self).occupancy,
            final(self).viewsheds == old(self).viewsheds,
            final(self).paths == old(self).paths,
            final(self).visible_tiles == old(self).visible_tiles,
            final(self).revealed_tiles == old(self).revealed_tiles,
    {
        let ghost w0 = *self;
        proof {
            lemma_index_in_range(self.grid.width as int, self.grid.height as int,
                x as int, y as int);
        }
        self.grid.set_tile(x, y, TileType::Floor);
        let idx = y * self.grid.width + x;
        let ghost w1 = *self;
        proof {
            lemma_occ_wf_transfer(w0, w1);
        }
        self.refresh_tile(idx);
        proof {
            let w2 = *self;
            lemma_occ_wf_transfer(w1, w2);
            assert forall |i: int| 0 <= i < w2.grid.count_spec()
                implies #[trigger] w2.motion_blocked.0@[i]
                    == (w2.grid.tiles@[i] is Wall || w2.occupant_blocks_motion(i))
                    && #[trigger] w2.visibility_blocked.0@[i]
                        == (w2.grid.tiles@[i] is Wall || w2.occupant_blocks_visibility(i))
                    && #[trigger] w2.collisions_monitored.0@[i] == w2.occupant_monitors(i) by {
                if i == idx {
                    lemma_same_bucket_same_flags(w1, w2, i);
                } else {
                    lemma_same_bucket_same_flags(w0, w2, i);
                    assert(w2.grid.tiles@[i] == w0.grid.tiles@[i]);
                    assert(w2.motion_blocked.0@[i] == w0.motion_blocked.0@[i]);
                    assert(w2.visibility_blocked.0@[i] == w0.visibility_blocked.0@[i]);
                    assert(w2.collisions_monitored.0@[i] == w0.collisions_monitored.0@[i]);
                }
            }
            assert forall |e2: int| #[trigger] w2.alive(e2) implies {
                let r2 = w2.rec(e2);
                -1000000 <= r2.velocity.x <= 1000000
                    && -1000000 <= r2.velocity.y <= 1000000 && r2.speed.0 <= 1000000
            } by {
                assert(w0.alive(e2));
            }
        }
    }

    /// Whether a reported collision is accounted for: its reporter is
    /// a live entity, its coordinates name the reported tile, and the
    /// entry could be obstructed at all — the tile is a wall, or some
    /// live entity carries a motion-blocking or collision-monitoring
    /// capability. On a grid of open floor with no such entities, no
    /// collision can be reported.
    pub open spec fn collision_justified(self, c: Collision) -> bool {
        &&& self.alive(c.entity as int)
        &&& c.coordinates.in_grid(self.grid.width as int, self.grid.height as int)
        &&& c.index as int == c.coordinates.index_spec(self.grid.width as int)
        &&& (self.grid.tiles@[c.index as int] is Wall
            || exists |e2: int| #[trigger] self.alive(e2)
                && (self.rec(e2).blocks_motion || self.rec(e2).monitors_collisions))
    }

    /// Run one simulation tick in the fixed subsystem order: steer
    /// every pathed entity, apply every velocity (re-bucketing each
    /// moved entity and refreshing the touched tiles at once), then
    /// recompute the viewsheds against the settled blocking state and
    /// fold them into the visible and revealed bitmaps. Returns the
    /// collisions the movement pass reported; each one is accounted
    /// for against the pre-tick state, so an open grid with no
    /// blocking or monitoring entities reports none. The tick leaves
    /// every viewshed equal to its field of view from the settled
    /// state, the visible snapshot equal to the union of the live
    /// player viewsheds, and the revealed memory grown by exactly the
    /// visible tiles.
    pub fn tick(&mut self, dt_ms: u64) -> (collisions: Vec<Collision>)
        requires
            old(self).wf(),
            dt_ms <= 60000,
        ensures
            final(self).wf(),
            final(self).grid == old(self).grid,
            final(self).entities@.len() == old(self).entities@.len(),
            forall |e: int| #[trigger] final(self).alive(e) <==> old(self).alive(e),
            // Capabilities never change during a tick.
            forall |e: int| #[trigger] final(self).alive(e) ==> {
                &&& final(self).rec(e).blocks_motion == old(self).rec(e).blocks_motion
                &&& final(self).rec(e).blocks_visibility == old(self).rec(e).blocks_visibility
                &&& final(self).rec(e).monitors_collisions
                    == old(self).rec(e).monitors_collisions
                &&& final(self).rec(e).player == old(self).rec(e).player
            },
            forall |k: int| 0 <= k < collisions@.len()
                ==> old(self).collision_justified(#[trigger] collisions@[k]),
            // Every agent leaves the tick with a viewshed freshly
            // computed from the settled blocking state and position.
            forall |e: int| #[trigger] final(self).alive(e)
                    && final(self).viewsheds@[e] is Some
                ==> {
                    let vs = final(self).viewsheds@[e]->Some_0;
                    let rgc: int = if vs.range <= 4096 { vs.range as int } else { 4096 };
                    cell_set(vs.visible@) == fov_spec(
                        final(self).visibility_blocked.0@,
                        old(self).grid.width as int, old(self).grid.height as int,
                        final(self).rec(e).coordinates.tile_x_spec(),
                        final(self).rec(e).coordinates.tile_y_spec(), rgc)
                },
            // The visible snapshot is exactly the union of the live
            // player viewsheds, and the revealed memory grows by
            // exactly the visible tiles.
            forall |i: int| 0 <= i < old(self).grid.count_spec()
                ==> #[trigger] final(self).visible_tiles.0@[i]
                    == seen_by_any(
                        players_vs(*final(self), old(self).entities@.len() as int),
                        old(self).grid.width as int, old(self).grid.height as int, i),
            forall |i: int| 0 <= i < old(self).grid.count_spec()
                ==> #[trigger] final(self).revealed_tiles.0@[i]
                    == (old(self).revealed_tiles.0@[i] || final(self).visible_tiles.0@[i]),
            forall |i: int| 0 <= i < old(self).grid.count_spec()
                    && old(self).revealed_tiles.0@[i]
                ==> final(self).revealed_tiles.0@[i],
    {
        let ghost w0 = *self;
        let n = self.entities.len();
        // Steering: negotiate each stored path into a velocity or a
        // snapped position, and clear finished journeys.
        let mut e: usize = 0;
        while e < n
            invariant
                self.wf(),
                dt_ms <= 60000,
                n == w0.entities@.len(),
                e <= n,
                self.entities@.len() == n,
                self.paths@.len() == n,
                self.grid == w0.grid,
                self.revealed_tiles == w0.revealed_tiles,
                forall |e3: int| #[trigger] self.alive(e3) <==> w0.alive(e3),
                forall |e3: int| #[trigger] self.alive(e3) ==> {
                    &&& self.rec(e3).blocks_motion == w0.rec(e3).blocks_motion
                    &&& self.rec(e3).blocks_visibility == w0.rec(e3).blocks_visibility
                    &&& self.rec(e3).monitors_collisions == w0.rec(e3).monitors_collisions
                    &&& self.rec(e3).player == w0.rec(e3).player
                },
            decreases n - e,
        {
            let ghost wpre = *self;
            let has = match (&self.entities[e], &self.paths[e]) {
                (Some(_), Some(_)) => true,
                _ => false,
            };
            if has {
                let r = match &self.entities[e] {
                    Some(rr) => *rr,
                    None => unreached(),
                };
                proof {
                    assert(self.alive(e as int));
                }
                let outcome = match &self.paths[e] {
                    Some(p) => crate::pathfinding::negotiate_step(
                        p, r.coordinates, r.speed, dt_ms, &self.grid,
                        &self.motion_blocked.0),
                    None => unreached(),
                };
                if outcome.arrived {
                    self.set_path(e, None);
                    self.set_destination(e, None);
                    self.set_velocity(e, Velocity { x: 0, y: 0 });
                } else {
                    self.set_path(e, Some(outcome.path));
                    self.update_entity_position(e, outcome.coordinates);
                    if let Some(v) = outcome.velocity {
                        self.set_velocity(e, v);
                    }
                }
            }
            proof {
                assert forall |e3: int| (#[trigger] self.alive(e3) <==> wpre.alive(e3)) by {
                    if e3 != e as int {
                        assert(0 <= e3 < n ==> self.entities@[e3] == wpre.entities@[e3]);
                    }
                }
                assert forall |e3: int| #[trigger] self.alive(e3) implies {
                    &&& self.rec(e3).blocks_motion == wpre.rec(e3).blocks_motion
                    &&& self.rec(e3).blocks_visibility == wpre.rec(e3).blocks_visibility
                    &&& self.rec(e3).monitors_collisions == wpre.rec(e3).monitors_collisions
                    &&& self.rec(e3).player == wpre.rec(e3).player
                } by {
                    if e3 != e as int {
                        assert(0 <= e3 < n ==> self.entities@[e3] == wpre.entities@[e3]);
                    }
                }
            }
            e = e + 1;
        }
        // Movement: apply each velocity, refusing blocked steps and
        // reporting monitored or blocked entries.
        let mut collisions: Vec<Collision> = Vec::new();
        let mut e2: usize = 0;
        while e2 < n
            invariant
                self.wf(),
                dt_ms <= 60000,
                n == w0.entities@.len(),
                e2 <= n,
                self.entities@.len() == n,
                self.grid == w0.grid,
                self.revealed_tiles == w0.revealed_tiles,
                forall |e3: int| #[trigger] self.alive(e3) <==> w0.alive(e3),
                forall |e3: int| #[trigger] self.alive(e3) ==> {
                    &&& self.rec(e3).blocks_motion == w0.rec(e3).blocks_motion
                    &&& self.rec(e3).blocks_visibility == w0.rec(e3).blocks_visibility
                    &&& self.rec(e3).monitors_collisions == w0.rec(e3).monitors_collisions
                    &&& self.rec(e3).player == w0.rec(e3).player
                },
                forall |k: int| 0 <= k < collisions@.len()
                    ==> w0.collision_justified(#[trigger] collisions@[k]),
            decreases n - e2,
        {
            let ghost wpre = *self;
            let has = match &self.entities[e2] {
                Some(_) => true,
                None => false,
            };
            if has {
                let r = match &self.entities[e2] {
                    Some(rr) => *rr,
                    None => unreached(),
                };
                proof {
                    assert(self.alive(e2 as int));
                    lemma_index_in_range(self.grid.width as int, self.grid.height as int,
                        r.coordinates.tile_x_spec(), r.coordinates.tile_y_spec());
                }
                let cur = r.coordinates.to_index(self.grid.width);
                let outcome = crate::navigation::plan_move(
                    e2, r.coordinates, r.velocity, dt_ms, &self.grid,
                    &self.motion_blocked, &self.collisions_monitored, cur);
                match outcome {
                    crate::navigation::MoveOutcome::Still => {}
                    crate::navigation::MoveOutcome::OffGrid => {}
                    crate::navigation::MoveOutcome::Blocked { collision } => {
                        proof {
                            let wi = self.grid.width as int;
                            let hi = self.grid.height as int;
                            let idx = collision.index as int;
                            assert(collision.coordinates.in_grid(wi, hi));
                            lemma_index_in_range(wi, hi,
                                collision.coordinates.tile_x_spec(),
                                collision.coordinates.tile_y_spec());
                            assert(idx == collision.coordinates.index_spec(wi));
                            assert(self.motion_blocked.0@[idx]);
                            // The tile was blocked at this moment: by its
                            // kind, or by a live occupant whose blocking
                            // capability predates the tick.
                            if !(self.grid.tiles@[idx] is Wall) {
                                assert(self.occupant_blocks_motion(idx));
                                let k0 = choose |k0: int|
                                    0 <= k0 < self.occupancy@[idx]@.len()
                                    && self.rec((#[trigger] self.occupancy@[idx]@[k0]) as int)
                                        .blocks_motion;
                                let eb = self.occupancy@[idx]@[k0] as int;
                                assert(self.alive(eb));
                                assert(w0.alive(eb) && w0.rec(eb).blocks_motion);
                            }
                            assert(w0.collision_justified(collision));
                        }
                        let ghost col0 = collisions@;
                        collisions.push(collision);
                        proof {
                            assert forall |k: int| 0 <= k < collisions@.len()
                                implies w0.collision_justified(#[trigger] collisions@[k]) by {
                                if k < col0.len() {
                                    assert(collisions@[k] == col0[k]);
                                }
                            }
                        }
                    }
                    crate::navigation::MoveOutcome::Moved { coordinates, collision } => {
                        proof {
                            if collision is Some {
                                let c = collision->Some_0;
                                let wi = self.grid.width as int;
                                let hi = self.grid.height as int;
                                let idx = c.index as int;
                                assert(c.coordinates.in_grid(wi, hi));
                                lemma_index_in_range(wi, hi,
                                    c.coordinates.tile_x_spec(), c.coordinates.tile_y_spec());
                                assert(idx == c.coordinates.index_spec(wi));
                                assert(self.collisions_monitored.0@[idx]);
                                // The entry is monitored: some live
                                // occupant monitors collisions.
                                assert(self.occupant_monitors(idx));
                                let k0 = choose |k0: int|
                                    0 <= k0 < self.occupancy@[idx]@.len()
                                    && self.rec((#[trigger] self.occupancy@[idx]@[k0]) as int)
                                        .monitors_collisions;
                                let eb = self.occupancy@[idx]@[k0] as int;
                                assert(self.alive(eb));
                                assert(w0.alive(eb) && w0.rec(eb).monitors_collisions);
                                assert(w0.collision_justified(c));
                            }
                        }
                        self.update_entity_position(e2, coordinates);
                        if let Some(c) = collision {
                            let ghost col0 = collisions@;
                            collisions.push(c);
                            proof {
                                assert forall |k: int| 0 <= k < collisions@.len()
                                    implies w0.collision_justified(#[trigger] collisions@[k]) by {
                                    if k < col0.len() {
                                        assert(collisions@[k] == col0[k]);
                                    }
                                }
                            }
                        }
                    }
                }
            }
            proof {
                assert forall |e3: int| (#[trigger] self.alive(e3) <==> wpre.alive(e3)) by {
                    if e3 != e2 as int {
                        assert(0 <= e3 < n ==> self.entities@[e3] == wpre.entities@[e3]);
                    }
                }
                assert forall |e3: int| #[trigger] self.alive(e3) implies {
                    &&& self.rec(e3).blocks_motion == wpre.rec(e3).blocks_motion
                    &&& self.rec(e3).blocks_visibility == wpre.rec(e3).blocks_visibility
                    &&& self.rec(e3).monitors_collisions == wpre.rec(e3).monitors_collisions
                    &&& self.rec(e3).player == wpre.rec(e3).player
                } by {
                    if e3 != e2 as int {
                        assert(0 <= e3 < n ==> self.entities@[e3] == wpre.entities@[e3]);
                    }
                }
            }
            e2 = e2 + 1;
        }
        // Visibility: recompute viewsheds against the settled blocking
        // bitmaps, then fold them into the per-grid snapshots.
        let ghost wmid = *self;
        self.update_viewsheds();
        let ghost wvs = *self;
        self.refresh_visibility();
        proof {
            assert forall |e3: int| (#[trigger] self.alive(e3) <==> wmid.alive(e3)) by {
                assert(self.entities == wmid.entities);
            }
            assert forall |e3: int| #[trigger] self.alive(e3) implies {
                &&& self.rec(e3).blocks_motion == w0.rec(e3).blocks_motion
                &&& self.rec(e3).blocks_visibility == w0.rec(e3).blocks_visibility
                &&& self.rec(e3).monitors_collisions == w0.rec(e3).monitors_collisions
                &&& self.rec(e3).player == w0.rec(e3).player
            } by {
                assert(self.entities@[e3] == wmid.entities@[e3]);
                assert(wmid.alive(e3));
            }
            // Viewsheds: the recomputation ran against the settled
            // bitmaps, and nothing after it touched positions, sight
            // bitmaps or viewsheds.
            assert forall |e3: int| #[trigger] self.alive(e3) && self.viewsheds@[e3] is Some
                implies {
                    let vs = self.viewsheds@[e3]->Some_0;
                    let rgc: int = if vs.range <= 4096 { vs.range as int } else { 4096 };
                    cell_set(vs.visible@) == fov_spec(
                        self.visibility_blocked.0@,
                        w0.grid.width as int, w0.grid.height as int,
                        self.rec(e3).coordinates.tile_x_spec(),
                        self.rec(e3).coordinates.tile_y_spec(), rgc)
                } by {
                assert(self.viewsheds@[e3] == wvs.viewsheds@[e3]);
                assert(wmid.alive(e3));
                assert(wmid.viewsheds@[e3] is Some);
                assert(self.entities@[e3] == wmid.entities@[e3]);
                assert(self.visibility_blocked == wmid.visibility_blocked);
                assert(wvs.viewsheds@[e3]->Some_0.range
                    == wmid.viewsheds@[e3]->Some_0.range);
            }
            // Visible tiles: the snapshot refresh spoke of the state
            // it read, which has the same records and viewsheds as the
            // final state.
            lemma_players_vs_same(wvs, *self, n as int);
            assert forall |i: int| 0 <= i < w0.grid.count_spec()
                implies #[trigger] self.visible_tiles.0@[i]
                    == seen_by_any(players_vs(*self, n as int),
                        w0.grid.width as int, w0.grid.height as int, i) by {
            }
        }
        collisions
    }
}

} // verus!

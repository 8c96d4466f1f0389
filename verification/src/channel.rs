use vstd::prelude::*;
use crossbeam_channel::Sender;
use crossbeam_channel::Receiver;
use crate::map::Grid;
use crate::map::TileType;
use crate::map::lemma_index_in_range;
use crate::pathfinding::Destination;
use crate::pathfinding::Path;
use crate::pathfinding::find_path;
use crate::world::World;
use crate::world::EntityRecord;

verus! {

#[verifier::external_type_specification]
#[verifier::external_body]
#[verifier::reject_recursive_types(T)]
pub struct ExSender<T>(Sender<T>);

#[verifier::external_type_specification]
#[verifier::external_body]
#[verifier::reject_recursive_types(T)]
pub struct ExReceiver<T>(Receiver<T>);

/// A search answer travelling back to the tick thread: which entity
/// asked, which destination the search was for, and the route found,
/// if any.
pub struct SearchResponse {
    pub entity: usize,
    pub destination: (i32, i32),
    pub result: Option<Path>,
}

/// Relies on crossbeam_channel::unbounded: a connected
/// sender/receiver pair for search responses.
#[verifier::external_body]
fn response_channel() -> (r: (Sender<SearchResponse>, Receiver<SearchResponse>)) {
    crossbeam_channel::unbounded()
}

/// Relies on crossbeam_channel::Sender::clone: another handle to the
/// same channel, for one more worker.
#[verifier::external_body]
fn clone_sender(tx: &Sender<SearchResponse>) -> (r: Sender<SearchResponse>) {
    tx.clone()
}

/// Relies on crossbeam_channel::Sender::send: queues the response on
/// the unbounded channel; when every receiver is gone the response is
/// simply dropped.
#[verifier::external_body]
fn send_response(tx: &Sender<SearchResponse>, response: SearchResponse) {
    let _ = tx.send(response);
}

/// Relies on crossbeam_channel::Receiver::try_recv: a response some
/// worker queued earlier, or nothing, without blocking. What arrives
/// depends on the workers' timing, so the caller handles every
/// outcome.
#[verifier::external_body]
fn try_recv_response(rx: &Receiver<SearchResponse>) -> (r: Option<SearchResponse>) {
    rx.try_recv().ok()
}

/// One background search to run: the requesting entity, its start
/// cell, the requested destination cell, a snapshot of the grid taken
/// at dispatch time, and the channel to answer on.
pub struct SearchJob {
    pub entity: usize,
    pub start: (i32, i32),
    pub destination: (i32, i32),
    pub grid: Grid,
    pub tx: Sender<SearchResponse>,
}

/// What one poll of the response channel did; `destination` is the
/// cell the answered search was dispatched for.
#[derive(Clone, Copy, Debug, PartialEq, Eq)]
pub enum PollOutcome {
    /// The response no longer matches live state (the entity is gone
    /// or asks for another destination): it was dropped unapplied.
    Stale { entity: usize, destination: (i32, i32) },
    /// The search found a route and it is now the entity's path.
    RouteApplied { entity: usize, destination: (i32, i32) },
    /// The search proved there is no route: the stale destination and
    /// any leftover path were cleared so the entity never waits on it.
    NoRoute { entity: usize, destination: (i32, i32) },
}

/// The per-grid search coordinator: the response channel and the
/// requests still in flight, at most one per entity.
pub struct PathComputer {
    tx: Sender<SearchResponse>,
    rx: Receiver<SearchResponse>,
    pending: Vec<(usize, (i32, i32))>,
}

/// Whether a request for entity `e` is in flight.
pub open spec fn pending_for(pending: Seq<(usize, (i32, i32))>, e: int) -> bool {
    exists |k: int| 0 <= k < pending.len() && (#[trigger] pending[k]).0 as int == e
}

/// The first in-flight entry for entity `e` and destination `d` at or
/// after position `k`, or the length when there is none.
pub open spec fn find_request(
    pending: Seq<(usize, (i32, i32))>, e: usize, d: (i32, i32), k: int,
) -> int
    decreases pending.len() - k,
{
    if k < 0 || k >= pending.len() {
        pending.len() as int
    } else if pending[k] == (e, d) {
        k
    } else {
        find_request(pending, e, d, k + 1)
    }
}

/// Where `find_request` lands: at a matching entry, or one past the
/// end when there is none.
pub proof fn lemma_find_request_props(
    pending: Seq<(usize, (i32, i32))>, e: usize, d: (i32, i32), k: int,
)
    requires
        0 <= k <= pending.len(),
    ensures
        k <= find_request(pending, e, d, k) <= pending.len(),
        find_request(pending, e, d, k) < pending.len()
            ==> pending[find_request(pending, e, d, k)] == (e, d),
    decreases pending.len() - k,
{
    if k < pending.len() && pending[k] != (e, d) {
        lemma_find_request_props(pending, e, d, k + 1);
    }
}

/// The in-flight requests once the answered one is consumed: the first
/// entry for that entity and destination is removed; with no such
/// entry, nothing changes.
pub open spec fn settle_request(
    pending: Seq<(usize, (i32, i32))>, e: usize, d: (i32, i32),
) -> Seq<(usize, (i32, i32))> {
    let i = find_request(pending, e, d, 0);
    if i == pending.len() {
        pending
    } else {
        pending.remove(i)
    }
}

impl PathComputer {
    pub closed spec fn pending_view(self) -> Seq<(usize, (i32, i32))> {
        self.pending@
    }

    pub fn new() -> (r: PathComputer)
        ensures
            r.pending_view().len() == 0,
    {
        let (tx, rx) = response_channel();
        PathComputer { tx, rx, pending: Vec::new() }
    }

    /// Start a search for an entity's destination, unless one is
    /// already in flight for it: at most one search per entity is
    /// pending at any time. The returned job carries a grid snapshot
    /// taken now, so the worker never reads live state.
    pub fn request(&mut self, world: &World, e: usize) -> (r: Option<SearchJob>)
        requires
            world.wf(),
            world.alive(e as int),
        ensures
            final(self).pending_view().len() >= old(self).pending_view().len(),
            r is Some <==> (!pending_for(old(self).pending_view(), e as int)
                && world.rec(e as int).destination is Some),
            match r {
                Some(job) => {
                    &&& job.entity == e
                    &&& (job.start.0 as int, job.start.1 as int)
                        == (world.rec(e as int).coordinates.tile_x_spec(),
                            world.rec(e as int).coordinates.tile_y_spec())
                    &&& Some(Destination(job.destination)) == world.rec(e as int).destination
                    &&& job.grid.wf()
                    &&& job.grid.width == world.grid.width
                    &&& job.grid.height == world.grid.height
                    &&& job.grid.tiles@ == world.grid.tiles@
                    &&& final(self).pending_view()
                        == old(self).pending_view().push((e, job.destination))
                }
                None => final(self).pending_view() == old(self).pending_view(),
            },
    {
        let destination = match &self.entities_destination(world, e) {
            Some(d) => *d,
            None => { return None; }
        };
        let mut k: usize = 0;
        while k < self.pending.len()
            invariant
                k <= self.pending@.len(),
                forall |q: int| 0 <= q < k ==> (#[trigger] self.pending@[q]).0 != e,
            decreases self.pending@.len() - k,
        {
            if self.pending[k].0 == e {
                proof {
                    assert(self.pending@[k as int].0 == e);
                }
                return None;
            }
            k = k + 1;
        }
        let r = match &world.entities[e] {
            Some(rr) => *rr,
            None => unreached(),
        };
        let start = (r.coordinates.tile_x() as i32, r.coordinates.tile_y() as i32);
        let grid = snapshot_grid(&world.grid);
        let tx = clone_sender(&self.tx);
        self.pending.push((e, destination.0));
        Some(SearchJob { entity: e, start, destination: destination.0, grid, tx })
    }

    /// The entity's current navigation request, if any.
    fn entities_destination(&self, world: &World, e: usize) -> (r: Option<Destination>)
        requires
            world.wf(),
            world.alive(e as int),
        ensures
            r == world.rec(e as int).destination,
    {
        match &world.entities[e] {
            Some(rr) => rr.destination,
            None => unreached(),
        }
    }

    /// Poll the channel once, without blocking, and consume at most
    /// one response. A response is applied only when its entity is
    /// still alive and still asks for the very destination the search
    /// was started for; anything else is stale and dropped. A found
    /// route is stored as the entity's path; a definite "no route"
    /// clears the stale destination and path. Either way that request
    /// stops being pending.
    pub fn poll(&mut self, world: &mut World) -> (r: Option<PollOutcome>)
        requires
            old(world).wf(),
        ensures
            final(world).wf(),
            final(world).grid == old(world).grid,
            final(world).entities@.len() == old(world).entities@.len(),
            final(world).occupancy == old(world).occupancy,
            final(world).viewsheds == old(world).viewsheds,
            final(world).motion_blocked == old(world).motion_blocked,
            final(world).visibility_blocked == old(world).visibility_blocked,
            final(world).collisions_monitored == old(world).collisions_monitored,
            final(world).visible_tiles == old(world).visible_tiles,
            final(world).revealed_tiles == old(world).revealed_tiles,
            final(self).pending_view().len() <= old(self).pending_view().len(),
            match r {
                None => {
                    &&& *final(world) == *old(world)
                    &&& final(self).pending_view() == old(self).pending_view()
                },
                Some(PollOutcome::Stale { entity, destination }) => {
                    &&& *final(world) == *old(world)
                    &&& final(self).pending_view()
                        == settle_request(old(self).pending_view(), entity, destination)
                },
                Some(PollOutcome::RouteApplied { entity, destination }) => {
                    &&& old(world).alive(entity as int)
                    &&& old(world).rec(entity as int).destination == Some(Destination(destination))
                    &&& final(world).entities == old(world).entities
                    &&& final(world).paths@[entity as int] is Some
                    &&& forall |j: int| 0 <= j < old(world).paths@.len() && j != entity
                        ==> #[trigger] final(world).paths@[j] == old(world).paths@[j]
                    &&& final(self).pending_view()
                        == settle_request(old(self).pending_view(), entity, destination)
                },
                Some(PollOutcome::NoRoute { entity, destination }) => {
                    &&& old(world).alive(entity as int)
                    &&& old(world).rec(entity as int).destination == Some(Destination(destination))
                    &&& final(world).alive(entity as int)
                    &&& final(world).rec(entity as int).destination is None
                    &&& final(world).rec(entity as int)
                        == (EntityRecord { destination: None, ..old(world).rec(entity as int) })
                    &&& forall |e2: int| 0 <= e2 < old(world).entities@.len() && e2 != entity
                        ==> #[trigger] final(world).entities@[e2] == old(world).entities@[e2]
                    &&& final(world).paths@[entity as int] is None
                    &&& forall |j: int| 0 <= j < old(world).paths@.len() && j != entity
                        ==> #[trigger] final(world).paths@[j] == old(world).paths@[j]
                    &&& final(self).pending_view()
                        == settle_request(old(self).pending_view(), entity, destination)
                },
            },
    {
        let resp = match try_recv_response(&self.rx) {
            None => { return None; }
            Some(resp) => resp,
        };
        let ghost pending0 = self.pending@;
        // The answered request is no longer in flight.
        let mut k: usize = 0;
        let mut found = false;
        while k < self.pending.len() && !found
            invariant
                k <= self.pending@.len(),
                !found ==> self.pending@ == pending0
                    && find_request(pending0, resp.entity, resp.destination, 0)
                        == find_request(pending0, resp.entity, resp.destination, k as int),
                found ==> self.pending@
                    == settle_request(pending0, resp.entity, resp.destination),
            decreases self.pending@.len() - k + (if found { 0int } else { 1int }),
        {
            let p = self.pending[k];
            if p.0 == resp.entity && p.1.0 == resp.destination.0 && p.1.1 == resp.destination.1 {
                proof {
                    assert(pending0[k as int] == (resp.entity, resp.destination));
                    assert(find_request(pending0, resp.entity, resp.destination, k as int)
                        == k as int);
                }
                self.pending.remove(k);
                found = true;
            } else {
                k = k + 1;
            }
        }
        proof {
            if !found {
                assert(find_request(pending0, resp.entity, resp.destination, k as int)
                    == pending0.len() as int);
                assert(self.pending@
                    == settle_request(pending0, resp.entity, resp.destination));
            }
            lemma_find_request_props(pending0, resp.entity, resp.destination, 0);
            assert(self.pending@.len() <= pending0.len());
        }
        // Discard a stale response: the entity despawned, or its
        // destination changed while the search was in flight.
        let e = resp.entity;
        let d = resp.destination;
        if e >= world.entities.len() {
            return Some(PollOutcome::Stale { entity: e, destination: d });
        }
        let live_destination = match &world.entities[e] {
            Some(rr) => rr.destination,
            None => { return Some(PollOutcome::Stale { entity: e, destination: d }); }
        };
        let matches = match live_destination {
            Some(Destination(ld)) => ld.0 == d.0 && ld.1 == d.1,
            None => false,
        };
        if !matches {
            return Some(PollOutcome::Stale { entity: e, destination: d });
        }
        proof {
            assert(world.alive(e as int));
            assert(world.rec(e as int).destination == Some(Destination(d)));
        }
        match resp.result {
            Some(path) => {
                world.set_path(e, Some(path));
                Some(PollOutcome::RouteApplied { entity: e, destination: d })
            }
            None => {
                world.set_destination(e, None);
                world.set_path(e, None);
                Some(PollOutcome::NoRoute { entity: e, destination: d })
            }
        }
    }
}

/// A navigation-grade copy of a grid: the dimensions, tiles and
/// points of interest, without the room descriptions. Taken when a
/// search is dispatched so the worker never touches live state.
pub fn snapshot_grid(grid: &Grid) -> (r: Grid)
    requires
        grid.wf(),
    ensures
        r.wf(),
        r.width == grid.width,
        r.height == grid.height,
        r.tiles@ == grid.tiles@,
        r.start_point == grid.start_point,
        r.exit_point == grid.exit_point,
{
    let mut tiles: Vec<TileType> = Vec::new();
    let mut i: usize = 0;
    let n = grid.tiles.len();
    while i < n
        invariant
            i <= n,
            n == grid.tiles@.len(),
            tiles@ == grid.tiles@.subrange(0, i as int),
        decreases n - i,
    {
        let t = grid.tiles[i];
        tiles.push(t);
        proof {
            assert(tiles@ =~= grid.tiles@.subrange(0, i + 1));
        }
        i = i + 1;
    }
    proof {
        assert(tiles@ =~= grid.tiles@);
    }
    Grid {
        width: grid.width,
        height: grid.height,
        tiles,
        start_point: grid.start_point,
        exit_point: grid.exit_point,
        rooms: Vec::new(),
    }
}

/// Run one search job to completion and answer on its channel: the
/// work a background worker performs. The grid snapshot is validated
/// before the search, so a malformed job answers "no route" instead
/// of failing.
pub fn run_search_job(job: SearchJob) {
    let dims_ok = job.grid.width >= 1 && job.grid.width <= 4096
        && job.grid.height >= 1 && job.grid.height <= 4096;
    let ok = dims_ok && {
        proof {
            lemma_index_in_range(job.grid.width as int, job.grid.height as int, 0, 0);
        }
        job.grid.tiles.len() == job.grid.width * job.grid.height
            && job.start.0 >= 0 && job.start.1 >= 0
            && (job.start.0 as i64) < job.grid.width as i64
            && (job.start.1 as i64) < job.grid.height as i64
    };
    let result = if ok {
        find_path(job.start, job.destination, &job.grid)
    } else {
        None
    };
    send_response(&job.tx, SearchResponse {
        entity: job.entity,
        destination: job.destination,
        result,
    });
}

} // verus!

use vstd::prelude::*;
use crate::coords::Coordinates;
use crate::map::Grid;
use crate::map::lemma_index_in_range;
use crate::pathfinding::Velocity;
use crate::pathfinding::disp_spec;

verus! {

/// Per-tile flags: motion is obstructed here, by the tile itself or by
/// an occupant that blocks motion.
#[derive(Clone, Debug)]
pub struct MotionBlocked(pub Vec<bool>);

/// Per-tile flags: entering this tile must be reported.
#[derive(Clone, Debug)]
pub struct CollisionsMonitored(pub Vec<bool>);

/// An attempted entry into a blocked or monitored tile.
#[derive(Clone, Copy, Debug, PartialEq, Eq, Structural)]
pub struct Collision {
    pub entity: usize,
    pub coordinates: Coordinates,
    pub index: usize,
}

/// What applying one tick of velocity decides for one entity.
#[derive(Clone, Copy, Debug, PartialEq, Eq, Structural)]
pub enum MoveOutcome {
    /// Zero velocity: nothing changes.
    Still,
    /// The step would leave the grid: silently ignored.
    OffGrid,
    /// The step enters a motion-blocked tile: the entity stays put and
    /// the collision is reported.
    Blocked { collision: Collision },
    /// The entity moves; entering a monitored tile reports a collision.
    Moved { coordinates: Coordinates, collision: Option<Collision> },
}

/// The position reached from `c` after `dt` milliseconds at velocity `v`.
pub open spec fn moved_point_spec(c: Coordinates, v: Velocity, dt: int) -> (int, int) {
    (c.x + disp_spec(v.x as int, dt), c.y + disp_spec(v.y as int, dt))
}

/// Apply one tick of velocity to an entity: project the displacement,
/// ignore a step that leaves the grid, refuse (and report) a step into
/// a motion-blocked tile other than the entity's own, and otherwise
/// commit the move, reporting entry into a collision-monitored tile
/// other than the entity's own.
/// `current_index` is the tile the spatial index holds the entity at.
pub fn plan_move(
    entity: usize,
    coordinates: Coordinates,
    velocity: Velocity,
    dt_ms: u64,
    grid: &Grid,
    motion_blocked: &MotionBlocked,
    collisions_monitored: &CollisionsMonitored,
    current_index: usize,
) -> (r: MoveOutcome)
    requires
        grid.wf(),
        coordinates.in_grid(grid.width as int, grid.height as int),
        motion_blocked.0@.len() == grid.count_spec(),
        collisions_monitored.0@.len() == grid.count_spec(),
        -1000000 <= velocity.x <= 1000000,
        -1000000 <= velocity.y <= 1000000,
        dt_ms <= 60000,
    ensures
        ({
            let p = moved_point_spec(coordinates, velocity, dt_ms as int);
            let c = Coordinates { x: p.0 as i64, y: p.1 as i64 };
            if velocity.x == 0 && velocity.y == 0 {
                r == MoveOutcome::Still
            } else if !c.in_grid(grid.width as int, grid.height as int) {
                r == MoveOutcome::OffGrid
            } else {
                let idx = c.index_spec(grid.width as int);
                let hit = Collision { entity, coordinates: c, index: idx as usize };
                if motion_blocked.0@[idx] && idx != current_index {
                    r == (MoveOutcome::Blocked { collision: hit })
                } else if collisions_monitored.0@[idx] && idx != current_index {
                    r == (MoveOutcome::Moved { coordinates: c, collision: Some(hit) })
                } else {
                    r == (MoveOutcome::Moved { coordinates: c, collision: None::<Collision> })
                }
            }
        }),
{
    if velocity.x == 0 && velocity.y == 0 {
        return MoveOutcome::Still;
    }
    let mvx: u64 = if velocity.x >= 0 { velocity.x as u64 } else { (-velocity.x) as u64 };
    let mvy: u64 = if velocity.y >= 0 { velocity.y as u64 } else { (-velocity.y) as u64 };
    proof {
        assert(mvx * dt_ms <= 60000000000 && mvy * dt_ms <= 60000000000)
            by (nonlinear_arith)
            requires mvx <= 1000000 && mvy <= 1000000 && dt_ms <= 60000,
        ;
    }
    let sdx: u64 = mvx * dt_ms / 1000;
    let sdy: u64 = mvy * dt_ms / 1000;
    let px: i64 = if velocity.x >= 0 { coordinates.x + sdx as i64 } else { coordinates.x - sdx as i64 };
    let py: i64 = if velocity.y >= 0 { coordinates.y + sdy as i64 } else { coordinates.y - sdy as i64 };
    let point = Coordinates { x: px, y: py };
    proof {
        assert(point.x as int == moved_point_spec(coordinates, velocity, dt_ms as int).0);
        assert(point.y as int == moved_point_spec(coordinates, velocity, dt_ms as int).1);
    }
    if !(px >= 0 && py >= 0
        && px < (grid.width as i64) * 1000 && py < (grid.height as i64) * 1000) {
        return MoveOutcome::OffGrid;
    }
    let idx = point.to_index(grid.width);
    proof {
        lemma_index_in_range(grid.width as int, grid.height as int,
            point.tile_x_spec(), point.tile_y_spec());
    }
    let hit = Collision { entity, coordinates: point, index: idx };
    if motion_blocked.0[idx] && idx != current_index {
        MoveOutcome::Blocked { collision: hit }
    } else if collisions_monitored.0[idx] && idx != current_index {
        MoveOutcome::Moved { coordinates: point, collision: Some(hit) }
    } else {
        MoveOutcome::Moved { coordinates: point, collision: None }
    }
}

} // verus!

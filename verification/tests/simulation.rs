use blackout::coords::Coordinates;
use blackout::coords::isqrt;
use blackout::map::Area;
use blackout::map::Grid;
use blackout::map::TileType;
use blackout::navigation::CollisionsMonitored;
use blackout::navigation::MotionBlocked;
use blackout::navigation::MoveOutcome;
use blackout::navigation::plan_move;
use blackout::pathfinding::Destination;
use blackout::pathfinding::Path;
use blackout::pathfinding::Speed;
use blackout::pathfinding::Velocity;
use blackout::pathfinding::cheat_assign;
use blackout::pathfinding::find_path;
use blackout::pathfinding::negotiate_step;
use blackout::pathfinding::nearest_extreme;
use blackout::world::EntityRecord;
use blackout::world::World;

fn open_grid(width: usize, height: usize) -> Grid {
    Grid::new(width, height, vec![TileType::Floor; width * height], None, None, Vec::new())
}

fn record_at(x: i64, y: i64) -> EntityRecord {
    EntityRecord {
        coordinates: Coordinates { x, y },
        velocity: Velocity { x: 0, y: 0 },
        speed: Speed(0),
        blocks_motion: false,
        blocks_visibility: false,
        monitors_collisions: false,
        player: false,
        destination: None,
    }
}

#[test]
fn isqrt_exact_values() {
    assert_eq!(isqrt(0), 0);
    assert_eq!(isqrt(1), 1);
    assert_eq!(isqrt(2), 1);
    assert_eq!(isqrt(4), 2);
    assert_eq!(isqrt(99), 9);
    assert_eq!(isqrt(100), 10);
    assert_eq!(isqrt(1_000_000), 1000);
    assert_eq!(isqrt(u64::MAX), 4294967295);
}

#[test]
fn coordinates_to_index_row_major() {
    let c = Coordinates { x: 3500, y: 2999 };
    assert_eq!(c.tile_x(), 3);
    assert_eq!(c.tile_y(), 2);
    assert_eq!(c.to_index(10), 23);
}

#[test]
fn area_contains_is_inclusive() {
    let a = Area { x1: 2, y1: 3, x2: 5, y2: 6, description: None };
    assert!(a.contains(&Coordinates { x: 2000, y: 3000 }));
    assert!(a.contains(&Coordinates { x: 5999, y: 6999 }));
    assert!(!a.contains(&Coordinates { x: 1999, y: 3000 }));
    assert!(!a.contains(&Coordinates { x: 6000, y: 4000 }));
    assert_eq!(a.center(), (3, 4));
}

#[test]
fn exits_from_respects_walls_and_corners() {
    let mut tiles = vec![TileType::Floor; 9];
    // A wall to the east of the centre of a 3 by 3 grid.
    tiles[1 * 3 + 2] = TileType::Wall;
    let g = Grid::new(3, 3, tiles, None, None, Vec::new());
    let exits = g.exits_from(1, 1);
    // The east neighbour is a wall, and both diagonals beside it are
    // forbidden: a diagonal step may not cut the wall corner.
    assert!(!exits.iter().any(|t| t.0 == 2 && t.1 == 1));
    assert!(!exits.iter().any(|t| t.0 == 2 && t.1 == 0));
    assert!(!exits.iter().any(|t| t.0 == 2 && t.1 == 2));
    // The other five neighbours are open.
    assert_eq!(exits.len(), 5);
    let west = exits.iter().find(|t| t.0 == 0 && t.1 == 1).unwrap();
    assert_eq!(west.2, 100);
    let north_west = exits.iter().find(|t| t.0 == 0 && t.1 == 0).unwrap();
    assert_eq!(north_west.2, 145);
}

#[test]
fn find_path_open_grid_connects_endpoints() {
    let g = open_grid(10, 10);
    let p = find_path((0, 0), (9, 9), &g).expect("an open grid has a route");
    let cells = &p.0;
    assert_eq!(cells[0], (0, 0));
    assert_eq!(*cells.last().unwrap(), (9, 9));
    for w in cells.windows(2) {
        let dx = (w[1].0 - w[0].0).abs();
        let dy = (w[1].1 - w[0].1).abs();
        assert!(dx <= 1 && dy <= 1 && (dx + dy) > 0);
    }
    // A diagonal route across an open grid needs exactly ten cells,
    // and a route never revisits a cell.
    assert_eq!(cells.len(), 10);
    let distinct: std::collections::HashSet<(i32, i32)> = cells.iter().copied().collect();
    assert_eq!(distinct.len(), cells.len());
}

#[test]
fn find_path_same_cell_is_trivial() {
    let g = open_grid(4, 4);
    let p = find_path((2, 2), (2, 2), &g).unwrap();
    assert_eq!(p.0, vec![(2, 2)]);
}

#[test]
fn find_path_walled_off_room_is_no_path() {
    // A 7 by 7 grid with a sealed room in the south-east corner.
    let mut tiles = vec![TileType::Floor; 49];
    for x in 0..7 {
        tiles[4 * 7 + x] = TileType::Wall;
    }
    for y in 0..7 {
        tiles[y * 7 + 4] = TileType::Wall;
    }
    tiles[5 * 7 + 5] = TileType::Floor;
    tiles[5 * 7 + 6] = TileType::Floor;
    let g = Grid::new(7, 7, tiles, None, None, Vec::new());
    assert!(find_path((0, 0), (5, 5), &g).is_none());
    assert!(find_path((0, 0), (3, 3), &g).is_some());
}

#[test]
fn find_path_out_of_bounds_destination_is_no_path() {
    let g = open_grid(5, 5);
    assert!(find_path((1, 1), (7, 1), &g).is_none());
    assert!(find_path((1, 1), (-1, 0), &g).is_none());
}

#[test]
fn nearest_extreme_picks_the_facing_edge() {
    assert_eq!(nearest_extreme(4500, 5), 5000);
    assert_eq!(nearest_extreme(5000, 5), 5000);
    assert_eq!(nearest_extreme(5100, 5), 5999);
    assert_eq!(nearest_extreme(6400, 5), 5999);
}

#[test]
fn cheat_assign_snaps_into_free_cell() {
    let g = open_grid(8, 8);
    let mb = vec![false; 64];
    let start = Coordinates { x: 4200, y: 5500 };
    let snapped = cheat_assign(start, (5, 5), &g, &mb).unwrap();
    // The x axis snaps to the near edge of column five; the y axis is
    // already inside row five and stays.
    assert_eq!(snapped, Coordinates { x: 5000, y: 5500 });

    let mut blocked = vec![false; 64];
    blocked[5 * 8 + 5] = true;
    assert!(cheat_assign(start, (5, 5), &g, &blocked).is_none());
}

#[test]
fn negotiate_splices_consumed_prefix() {
    let g = open_grid(10, 10);
    let mb = vec![false; 100];
    let path = Path(vec![(0, 0), (1, 1), (2, 1), (3, 1)]);
    // The entity already advanced into cell (1, 1): the consumed
    // prefix is dropped and the path restarts there.
    let r = negotiate_step(&path, Coordinates { x: 1500, y: 1500 }, Speed(1000), 100, &g, &mb);
    assert_eq!(r.path.0, vec![(1, 1), (2, 1), (3, 1)]);
    assert!(!r.arrived);
    let v = r.velocity.unwrap();
    // Steering aims at the centre of (2, 1): straight along x.
    assert!(v.x > 0 && v.y == 0);
}

#[test]
fn negotiate_single_cell_path_is_arrival() {
    let g = open_grid(10, 10);
    let mb = vec![false; 100];
    let path = Path(vec![(4, 4)]);
    let r = negotiate_step(&path, Coordinates { x: 4500, y: 4500 }, Speed(1000), 100, &g, &mb);
    assert!(r.arrived);
    assert_eq!(r.velocity, Some(Velocity { x: 0, y: 0 }));
}

#[test]
fn negotiate_empty_path_is_arrival() {
    let g = open_grid(10, 10);
    let mb = vec![false; 100];
    let path = Path(Vec::new());
    let r = negotiate_step(&path, Coordinates { x: 4500, y: 4500 }, Speed(1000), 100, &g, &mb);
    assert!(r.arrived);
}

#[test]
fn negotiate_snaps_around_fresh_obstacle() {
    // Open grid; the projected diagonal step lands in (6, 4), which a
    // fresh obstacle blocks, while the path's target (6, 5) is open.
    let g = open_grid(10, 10);
    let mut mb = vec![false; 100];
    mb[4 * 10 + 6] = true;
    let path = Path(vec![(5, 4), (6, 5), (7, 6)]);
    let start = Coordinates { x: 5900, y: 4200 };
    let r = negotiate_step(&path, start, Speed(1000000), 1000, &g, &mb);
    assert!(!r.arrived);
    // Snapping the x axis alone would land in the blocked (6, 4), so
    // the y axis snaps instead and the entity slips beside the block.
    assert_eq!(r.coordinates, Coordinates { x: 5900, y: 5000 });
    assert_eq!(r.velocity, None);
}

#[test]
fn negotiate_halts_when_every_snap_is_blocked() {
    // A one-tile corridor along row five, blocked at (5, 5): there is
    // no open snap target, so the entity halts with zero velocity.
    let mut tiles = vec![TileType::Wall; 100];
    for x in 0..10 {
        tiles[5 * 10 + x] = TileType::Floor;
    }
    let g = Grid::new(10, 10, tiles, None, None, Vec::new());
    let mut mb: Vec<bool> = (0..100).map(|i| g.tiles[i] == TileType::Wall).collect();
    mb[5 * 10 + 5] = true;
    let path = Path(vec![(4, 5), (5, 5), (6, 5)]);
    let start = Coordinates { x: 4900, y: 5500 };
    let r = negotiate_step(&path, start, Speed(1000000), 1000, &g, &mb);
    assert!(!r.arrived);
    assert_eq!(r.coordinates, start);
    assert_eq!(r.velocity, Some(Velocity { x: 0, y: 0 }));
}

#[test]
fn plan_move_reports_and_refuses_blocked_entry() {
    let g = open_grid(6, 6);
    let mut mb = MotionBlocked(vec![false; 36]);
    mb.0[2 * 6 + 3] = true;
    let cm = CollisionsMonitored(vec![false; 36]);
    let coords = Coordinates { x: 2900, y: 2500 };
    let cur = coords.to_index(6);
    let vel = Velocity { x: 1000, y: 0 };
    match plan_move(7, coords, vel, 1000, &g, &mb, &cm, cur) {
        MoveOutcome::Blocked { collision } => {
            assert_eq!(collision.entity, 7);
            assert_eq!(collision.index, 2 * 6 + 3);
        }
        other => panic!("expected a blocked step, got {:?}", other),
    }
}

#[test]
fn plan_move_reports_monitored_entry_but_moves() {
    let g = open_grid(6, 6);
    let mb = MotionBlocked(vec![false; 36]);
    let mut cm = CollisionsMonitored(vec![false; 36]);
    cm.0[2 * 6 + 3] = true;
    let coords = Coordinates { x: 2900, y: 2500 };
    let cur = coords.to_index(6);
    let vel = Velocity { x: 1000, y: 0 };
    match plan_move(7, coords, vel, 1000, &g, &mb, &cm, cur) {
        MoveOutcome::Moved { coordinates, collision } => {
            assert_eq!(coordinates, Coordinates { x: 3900, y: 2500 });
            assert_eq!(collision.unwrap().index, 2 * 6 + 3);
        }
        other => panic!("expected a monitored move, got {:?}", other),
    }
}

#[test]
fn plan_move_off_grid_is_silent_no_op() {
    let g = open_grid(6, 6);
    let mb = MotionBlocked(vec![false; 36]);
    let cm = CollisionsMonitored(vec![false; 36]);
    let coords = Coordinates { x: 5900, y: 2500 };
    let cur = coords.to_index(6);
    let vel = Velocity { x: 1000000, y: 0 };
    assert_eq!(plan_move(7, coords, vel, 1000, &g, &mb, &cm, cur), MoveOutcome::OffGrid);
}

#[test]
fn spatial_index_tracks_exactly_one_tile() {
    let g = open_grid(8, 8);
    let mut w = World::new(g);
    let e = w.spawn(record_at(1500, 1500), None);
    // The entity sits in exactly one occupancy set: its own tile's.
    let mut holding: Vec<usize> = Vec::new();
    for i in 0..64 {
        if w.occupancy[i].contains(&e) {
            holding.push(i);
        }
    }
    assert_eq!(holding, vec![1 * 8 + 1]);
    // After a move it sits only in the new tile's set.
    w.update_entity_position(e, Coordinates { x: 6200, y: 3900 });
    let mut holding2: Vec<usize> = Vec::new();
    for i in 0..64 {
        if w.occupancy[i].contains(&e) {
            holding2.push(i);
        }
    }
    assert_eq!(holding2, vec![3 * 8 + 6]);
}

#[test]
fn off_grid_update_is_ignored() {
    let g = open_grid(8, 8);
    let mut w = World::new(g);
    let e = w.spawn(record_at(1500, 1500), None);
    w.update_entity_position(e, Coordinates { x: -100, y: 1500 });
    assert!(w.occupancy[1 * 8 + 1].contains(&e));
    w.update_entity_position(e, Coordinates { x: 1500, y: 9000 });
    assert!(w.occupancy[1 * 8 + 1].contains(&e));
}

#[test]
fn blocking_bitmap_follows_blockers() {
    let g = open_grid(8, 8);
    let mut w = World::new(g);
    let idx_a = 2 * 8 + 2;
    let idx_b = 2 * 8 + 5;
    let mut r = record_at(2500, 2500);
    r.blocks_motion = true;
    r.blocks_visibility = true;
    let e = w.spawn(r, None);
    assert!(w.motion_blocked.0[idx_a]);
    assert!(w.visibility_blocked.0[idx_a]);
    assert!(!w.motion_blocked.0[idx_b]);
    // Moving the blocker clears the tile it left and marks the tile it
    // entered.
    w.update_entity_position(e, Coordinates { x: 5500, y: 2500 });
    assert!(!w.motion_blocked.0[idx_a]);
    assert!(w.motion_blocked.0[idx_b]);
    // Dropping the capability in place re-checks the tile.
    w.set_capabilities(e, false, false, false);
    assert!(!w.motion_blocked.0[idx_b]);
    assert!(!w.visibility_blocked.0[idx_b]);
}

#[test]
fn monitored_tiles_follow_monitors() {
    let g = open_grid(8, 8);
    let mut w = World::new(g);
    let mut r = record_at(4500, 4500);
    r.monitors_collisions = true;
    let e = w.spawn(r, None);
    assert!(w.collisions_monitored.0[4 * 8 + 4]);
    w.despawn(e);
    assert!(!w.collisions_monitored.0[4 * 8 + 4]);
}

#[test]
fn carving_floor_refreshes_blocking() {
    let mut tiles = vec![TileType::Floor; 25];
    tiles[2 * 5 + 2] = TileType::Wall;
    let g = Grid::new(5, 5, tiles, None, None, Vec::new());
    let mut w = World::new(g);
    assert!(w.motion_blocked.0[2 * 5 + 2]);
    assert!(w.visibility_blocked.0[2 * 5 + 2]);
    w.carve_floor(2, 2);
    assert!(!w.motion_blocked.0[2 * 5 + 2]);
    assert!(!w.visibility_blocked.0[2 * 5 + 2]);
}

#[test]
fn steering_drives_to_destination_in_finite_ticks() {
    // A ten by ten open grid, from the corner cell to the far corner,
    // at five tiles per second: the journey must finish in roughly
    // distance over speed, and it must never report a collision.
    let g = open_grid(10, 10);
    let mut w = World::new(g);
    let mut r = record_at(500, 500);
    r.speed = Speed(5000);
    let e = w.spawn(r, None);
    let route = find_path((0, 0), (9, 9), &w.grid).unwrap();
    w.set_destination(e, Some(Destination((9, 9))));
    w.set_path(e, Some(route));
    let mut ticks = 0usize;
    loop {
        let collisions = w.tick(100);
        assert!(collisions.is_empty());
        ticks += 1;
        let done = w.paths[e].is_none();
        if done {
            break;
        }
        assert!(ticks < 100, "the journey should finish in bounded ticks");
    }
    // The diagonal is about 12.7 tiles; at 5 tiles per second and a
    // tenth of a second per tick that is under forty ticks.
    assert!(ticks <= 60, "took {} ticks", ticks);
    let rec = match &w.entities[e] {
        Some(rr) => *rr,
        None => panic!("entity lives"),
    };
    assert_eq!(rec.coordinates.tile_x(), 9);
    assert_eq!(rec.coordinates.tile_y(), 9);
    // Arrival cleared the path and the destination.
    assert!(w.paths[e].is_none());
    assert!(rec.destination.is_none());
}

#[test]
fn areas_containing_finds_first_match() {
    let rooms = blackout::map::Areas(vec![
        Area { x1: 0, y1: 0, x2: 3, y2: 3, description: None },
        Area { x1: 2, y1: 2, x2: 6, y2: 6, description: None },
        Area { x1: 8, y1: 8, x2: 9, y2: 9, description: None },
    ]);
    assert_eq!(rooms.containing(&Coordinates { x: 2500, y: 2500 }), Some(0));
    assert_eq!(rooms.containing(&Coordinates { x: 5500, y: 5500 }), Some(1));
    assert_eq!(rooms.containing(&Coordinates { x: 7500, y: 7500 }), None);
}

#[test]
fn carving_a_doorway_opens_a_route() {
    let mut tiles = vec![TileType::Floor; 49];
    for x in 0..7 {
        tiles[4 * 7 + x] = TileType::Wall;
    }
    let g = Grid::new(7, 7, tiles, None, None, Vec::new());
    let mut w = World::new(g);
    assert!(find_path((1, 1), (1, 6), &w.grid).is_none());
    assert!(w.motion_blocked.0[4 * 7 + 1]);
    w.carve_floor(1, 4);
    assert!(!w.motion_blocked.0[4 * 7 + 1]);
    assert!(!w.visibility_blocked.0[4 * 7 + 1]);
    let p = find_path((1, 1), (1, 6), &w.grid).expect("the doorway opens a route");
    assert_eq!(p.0[0], (1, 1));
    assert_eq!(*p.0.last().unwrap(), (1, 6));
}

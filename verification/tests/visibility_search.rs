use std::collections::HashSet;

use blackout::channel::PathComputer;
use blackout::channel::PollOutcome;
use blackout::channel::run_search_job;
use blackout::coords::Coordinates;
use blackout::map::Grid;
use blackout::map::TileType;
use blackout::pathfinding::Destination;
use blackout::pathfinding::Speed;
use blackout::pathfinding::Velocity;
use blackout::visibility::RevealedTiles;
use blackout::visibility::Viewshed;
use blackout::visibility::VisibilityBlocked;
use blackout::visibility::compute_visible;
use blackout::visibility::reset_revealed;
use blackout::visibility::reveal_all;
use blackout::world::EntityRecord;
use blackout::world::World;

fn open_grid(width: usize, height: usize) -> Grid {
    Grid::new(width, height, vec![TileType::Floor; width * height], None, None, Vec::new())
}

fn record_at(x: i64, y: i64) -> EntityRecord {
    EntityRecord {
        coordinates: Coordinates { x, y },
        velocity: Velocity { x: 0, y: 0 },
        speed: Speed(0),
        blocks_motion: false,
        blocks_visibility: false,
        monitors_collisions: false,
        player: false,
        destination: None,
    }
}

fn visible_set(g: &Grid, vb: &VisibilityBlocked, origin: (usize, usize), range: u32)
    -> HashSet<(i32, i32)>
{
    compute_visible(vb, g, origin, range).into_iter().collect()
}

#[test]
fn fov_sees_origin_and_neighbours_on_open_ground() {
    let g = open_grid(11, 11);
    let vb = VisibilityBlocked(vec![false; 121]);
    let seen = visible_set(&g, &vb, (5, 5), 5);
    assert!(seen.contains(&(5, 5)));
    assert!(seen.contains(&(6, 5)));
    assert!(seen.contains(&(5, 4)));
    assert!(seen.contains(&(9, 5)));
    assert!(seen.contains(&(5, 9)));
    assert!(seen.contains(&(8, 8)));
    // A cell exactly at the radius is still seen.
    assert!(seen.contains(&(10, 5)));
    // The circular radius excludes the squared corner.
    assert!(!seen.contains(&(9, 9)));
    // Nothing beyond the range.
    assert!(!seen.contains(&(10, 6)));
}

#[test]
fn fov_wall_casts_a_shadow() {
    let g = open_grid(11, 11);
    let mut vb = VisibilityBlocked(vec![false; 121]);
    vb.0[5 * 11 + 7] = true;
    let seen = visible_set(&g, &vb, (5, 5), 5);
    // The wall itself is visible; the cells straight behind it are not.
    assert!(seen.contains(&(7, 5)));
    assert!(!seen.contains(&(8, 5)));
    assert!(!seen.contains(&(9, 5)));
    // Sight away from the shadow is untouched.
    assert!(seen.contains(&(5, 9)));
    assert!(seen.contains(&(7, 7)));
}

#[test]
fn fov_is_deterministic_for_equal_configurations() {
    let g = open_grid(11, 11);
    let mut vb = VisibilityBlocked(vec![false; 121]);
    vb.0[5 * 11 + 7] = true;
    vb.0[3 * 11 + 4] = true;
    let a = visible_set(&g, &vb, (5, 5), 5);
    let b = visible_set(&g, &vb, (5, 5), 5);
    assert_eq!(a, b);
}

#[test]
fn fov_more_walls_never_widen_sight() {
    let g = open_grid(11, 11);
    let open = VisibilityBlocked(vec![false; 121]);
    let before = visible_set(&g, &open, (5, 5), 5);
    let mut vb = VisibilityBlocked(vec![false; 121]);
    vb.0[5 * 11 + 7] = true;
    let after = visible_set(&g, &vb, (5, 5), 5);
    for cell in &after {
        assert!(before.contains(cell), "{:?} appeared only after adding a wall", cell);
    }
}

#[test]
fn viewshed_is_visible_checks_membership() {
    let mut vs = Viewshed::new(8);
    assert_eq!(vs.range, 8);
    assert!(!vs.is_visible((2, 3)));
    vs.visible.push((2, 3));
    assert!(vs.is_visible((2, 3)));
    assert!(!vs.is_visible((3, 2)));
}

#[test]
fn revealed_tiles_grow_and_only_reset_clears() {
    let g = open_grid(9, 9);
    let mut w = World::new(g);
    let mut r = record_at(4500, 4500);
    r.player = true;
    let e = w.spawn(r, Some(Viewshed::new(3)));
    w.tick(100);
    let idx = 4 * 9 + 4;
    assert!(w.visible_tiles.0[idx]);
    assert!(w.revealed_tiles.0[idx]);
    let seen_once: Vec<usize> = (0..81).filter(|i| w.revealed_tiles.0[*i]).collect();
    // Moving away keeps everything already revealed (fog-of-war
    // memory), while the visible snapshot follows the viewer.
    w.update_entity_position(e, Coordinates { x: 1500, y: 1500 });
    w.tick(100);
    for i in &seen_once {
        assert!(w.revealed_tiles.0[*i], "tile {} was forgotten", i);
    }
    assert!(w.visible_tiles.0[1 * 9 + 1]);
    // The explicit reset is the one way to clear the memory, and the
    // start-revealed mode marks everything at once.
    let mut revealed = RevealedTiles(w.revealed_tiles.0.clone());
    reset_revealed(&mut revealed);
    assert!(revealed.0.iter().all(|b| !*b));
    reveal_all(&mut revealed);
    assert!(revealed.0.iter().all(|b| *b));
}

#[test]
fn entity_blocking_sight_casts_a_shadow() {
    let g = open_grid(11, 11);
    let mut w = World::new(g);
    let mut viewer = record_at(5500, 5500);
    viewer.player = true;
    let _viewer = w.spawn(viewer, Some(Viewshed::new(5)));
    let mut blocker = record_at(7500, 5500);
    blocker.blocks_visibility = true;
    let _blocker = w.spawn(blocker, None);
    w.tick(100);
    assert!(w.visible_tiles.0[5 * 11 + 7]);
    assert!(!w.visible_tiles.0[5 * 11 + 8]);
    assert!(!w.visible_tiles.0[5 * 11 + 9]);
}

#[test]
fn search_worker_answers_and_path_is_applied() {
    let g = open_grid(10, 10);
    let mut w = World::new(g);
    let mut r = record_at(500, 500);
    r.speed = Speed(5000);
    let e = w.spawn(r, None);
    w.set_destination(e, Some(Destination((9, 9))));
    let mut pc = PathComputer::new();
    let job = pc.request(&w, e).expect("a destination requests a search");
    assert_eq!(job.entity, e);
    assert_eq!(job.start, (0, 0));
    assert_eq!(job.destination, (9, 9));
    // At most one search per entity is in flight.
    assert!(pc.request(&w, e).is_none());
    run_search_job(job);
    let polled = pc.poll(&mut w);
    assert_eq!(polled, Some(PollOutcome::RouteApplied { entity: e, destination: (9, 9) }));
    let path = w.paths[e].as_ref().expect("the found route is stored");
    assert_eq!(path.0[0], (0, 0));
    assert_eq!(*path.0.last().unwrap(), (9, 9));
    // The channel is drained.
    assert_eq!(pc.poll(&mut w), None);
}

#[test]
fn unreachable_destination_resolves_to_no_path() {
    // A sealed room in the corner: the search must resolve to no
    // route and clear the stale request rather than leaving the
    // entity waiting on it.
    let mut tiles = vec![TileType::Floor; 49];
    for x in 0..7 {
        tiles[4 * 7 + x] = TileType::Wall;
    }
    for y in 0..7 {
        tiles[y * 7 + 4] = TileType::Wall;
    }
    tiles[5 * 7 + 5] = TileType::Floor;
    let g = Grid::new(7, 7, tiles, None, None, Vec::new());
    let mut w = World::new(g);
    let e = w.spawn(record_at(500, 500), None);
    w.set_destination(e, Some(Destination((5, 5))));
    let mut pc = PathComputer::new();
    let job = pc.request(&w, e).unwrap();
    run_search_job(job);
    let polled = pc.poll(&mut w);
    assert_eq!(polled, Some(PollOutcome::NoRoute { entity: e, destination: (5, 5) }));
    assert!(w.paths[e].is_none());
    let rec = match &w.entities[e] {
        Some(rr) => *rr,
        None => panic!("entity lives"),
    };
    assert!(rec.destination.is_none(), "the stale request is cleared");
}

#[test]
fn superseded_search_result_is_dropped() {
    let g = open_grid(10, 10);
    let mut w = World::new(g);
    let e = w.spawn(record_at(500, 500), None);
    w.set_destination(e, Some(Destination((9, 9))));
    let mut pc = PathComputer::new();
    let job = pc.request(&w, e).unwrap();
    // The destination changes while the search is in flight: the
    // stale answer must be detected and dropped, not applied.
    w.set_destination(e, Some(Destination((3, 3))));
    run_search_job(job);
    let polled = pc.poll(&mut w);
    assert_eq!(polled, Some(PollOutcome::Stale { entity: e, destination: (9, 9) }));
    assert!(w.paths[e].is_none());
}

#[test]
fn despawned_requester_result_is_dropped() {
    let g = open_grid(10, 10);
    let mut w = World::new(g);
    let e = w.spawn(record_at(500, 500), None);
    w.set_destination(e, Some(Destination((9, 9))));
    let mut pc = PathComputer::new();
    let job = pc.request(&w, e).unwrap();
    w.despawn(e);
    run_search_job(job);
    let polled = pc.poll(&mut w);
    assert_eq!(polled, Some(PollOutcome::Stale { entity: e, destination: (9, 9) }));
}

use dungeon_core::config::{MapConfig, Room};
use dungeon_core::grid::{EntityHandle, GridMap, TileState};
use dungeon_core::nav::clamp;
use dungeon_core::path::{heuristic_distance, Navigator, Path, PathNode};
use dungeon_core::systems::PathFinder;
use rand::rngs::StdRng;
use rand::SeedableRng;

fn config() -> MapConfig {
    MapConfig {
        width: 64,
        height: 64,
        room_place_max_iterations: 400,
        corridor_turn_chance: 100,
        superfluous_doors_per_room: 500,
        room_sizes: vec![Room { name: "mid".to_string(), frequency: 500, min_size: (4, 4), max_size: (8, 8) }],
    }
}

fn generated(seed: u64) -> GridMap {
    let mut rng = StdRng::seed_from_u64(seed);
    let mut map = GridMap::new(64, 64);
    map.generate(&config(), &mut rng);
    map
}

fn open(map: &GridMap, x: usize, y: usize) -> bool {
    map.tile_at(x, y) != TileState::Wall
}

#[test]
fn closest_cell_from_a_wall_matches_brute_force() {
    let map = generated(11);
    let mut checked = 0;
    for x in (0..64usize).step_by(5) {
        for y in (0..64usize).step_by(7) {
            if open(&map, x, y) {
                continue;
            }
            let got = map.get_closest_traversable_location(x, y, false).expect("an open cell exists");
            assert!(open(&map, got.0, got.1));
            let l1 = |a: usize, b: usize| (a as i64 - x as i64).abs() + (b as i64 - y as i64).abs();
            let sq = |a: usize, b: usize| (a as i64 - x as i64).pow(2) + (b as i64 - y as i64).pow(2);
            let mut best_ring = i64::MAX;
            for a in 0..64usize {
                for b in 0..64usize {
                    if open(&map, a, b) {
                        best_ring = best_ring.min(l1(a, b));
                    }
                }
            }
            assert_eq!(l1(got.0, got.1), best_ring);
            for a in 0..64usize {
                for b in 0..64usize {
                    if open(&map, a, b) && l1(a, b) == best_ring {
                        assert!(sq(got.0, got.1) <= sq(a, b));
                    }
                }
            }
            checked += 1;
        }
    }
    assert!(checked > 0);
}

#[test]
fn closest_cell_on_open_cell() {
    let mut map = GridMap::new(5, 5);
    map.set_tile(2, 2, TileState::Room(0));
    assert_eq!(map.get_closest_traversable_location(2, 2, false), Some((2, 2)));
    assert_eq!(map.get_closest_traversable_location(2, 2, true), None);
    assert_eq!(map.get_closest_traversable_location(0, 0, false), Some((2, 2)));
    assert_eq!(map.get_closest_traversable_location(2, 4, true), Some((2, 2)));
}

#[test]
fn closest_cell_prefers_euclidean_within_ring() {
    let mut map = GridMap::new(9, 9);
    // Both at Manhattan distance 2 from (4, 4); (5, 5) is nearer than (4, 6).
    map.set_tile(4, 6, TileState::Corridor(0));
    map.set_tile(5, 5, TileState::Corridor(0));
    assert_eq!(map.get_closest_traversable_location(4, 4, false), Some((5, 5)));
}

#[test]
fn closest_cell_none_on_all_walls() {
    let map = GridMap::new(4, 3);
    assert_eq!(map.get_closest_traversable_location(1, 1, false), None);
}

#[test]
fn clamp_reports_clamping() {
    assert_eq!(clamp(3, 4, 10, 10), (3, 4, false));
    assert_eq!(clamp(-1, 4, 10, 10), (0, 4, true));
    assert_eq!(clamp(3, 12, 10, 10), (3, 9, true));
    assert_eq!(clamp(10, 9, 10, 10), (9, 9, true));
}

#[test]
fn line_of_sight_is_symmetric() {
    let map = generated(5);
    for a in (0..64usize).step_by(9) {
        for b in (0..64usize).step_by(11) {
            for c in (0..64usize).step_by(13) {
                for d in (0..64usize).step_by(7) {
                    assert_eq!(map.line_of_sight((a, b), (c, d)), map.line_of_sight((c, d), (a, b)));
                }
            }
        }
    }
}

#[test]
fn line_of_sight_blocked_by_wall() {
    let mut map = GridMap::new(7, 3);
    for x in 0..7 {
        map.set_tile(x, 1, TileState::Room(0));
    }
    assert!(map.line_of_sight((0, 1), (6, 1)));
    map.set_tile(3, 1, TileState::Wall);
    assert!(!map.line_of_sight((0, 1), (6, 1)));
    assert!(!map.line_of_sight((6, 1), (0, 1)));
    assert!(map.line_of_sight((0, 1), (2, 1)));
}

#[test]
fn ray_cells_follow_the_line() {
    let map = GridMap::new(8, 8);
    assert_eq!(map.ray_cells((0, 0), (3, 0)), vec![(0, 0), (1, 0), (2, 0), (3, 0)]);
    assert_eq!(map.ray_cells((2, 2), (0, 0)), vec![(0, 0), (1, 1), (2, 2)]);
    assert_eq!(map.ray_cells((0, 0), (2, 1)), vec![(0, 0), (1, 0), (1, 1), (2, 1)]);
}

#[test]
fn heuristic_exact_values() {
    let a = PathNode::new(0, 0);
    let b = PathNode::new(3, 7);
    assert_eq!(heuristic_distance(&a, &b, true), 7);
    assert_eq!(heuristic_distance(&a, &b, false), 10);
    assert_eq!(heuristic_distance(&PathNode::new(i32::MIN, 0), &PathNode::new(i32::MAX, 0), false), i32::MAX);
}

#[test]
fn route_is_adjacent_and_repeatable() {
    let map = generated(21);
    let (origin, objective) = PathFinder::endpoints(&map).expect("open cells");
    let handle = EntityHandle { id: 1, generation: 0 };
    let mut first = Path::new(handle, objective, origin);
    let mut second = Path::new(handle, objective, origin);
    first.run(&map);
    second.run(&map);
    let (r1, c1) = first.path.clone().expect("reachable");
    let (r2, c2) = second.path.clone().expect("reachable");
    assert_eq!(c1, c2);
    assert_eq!(r1, r2);
    assert_eq!(r1[0], origin);
    assert_eq!(*r1.last().unwrap(), objective);
    assert_eq!(c1 as usize, r1.len() - 1);
    for w in r1.windows(2) {
        let dx = (w[0].x - w[1].x).abs();
        let dy = (w[0].y - w[1].y).abs();
        assert!(dx <= 1 && dy <= 1 && (dx, dy) != (0, 0));
        assert!(!map.is_wall(w[1].x as u32, w[1].y as u32));
    }
    assert_eq!(first.path_i, Some(0));
}

#[test]
fn route_absent_when_walled_off() {
    let mut map = GridMap::new(6, 3);
    map.set_tile(0, 1, TileState::Room(0));
    map.set_tile(5, 1, TileState::Room(1));
    let mut p = Path::new(EntityHandle { id: 0, generation: 0 }, PathNode::new(5, 1), PathNode::new(0, 1));
    p.run(&map);
    assert!(p.path.is_none());
    assert!(p.path_i.is_none());
}

#[test]
fn route_straight_line() {
    let mut map = GridMap::new(5, 3);
    for x in 0..5 {
        map.set_tile(x, 1, TileState::Corridor(0));
    }
    let mut p = Path::new(EntityHandle { id: 0, generation: 0 }, PathNode::new(4, 1), PathNode::new(0, 1));
    p.run(&map);
    let (route, cost) = p.path.clone().unwrap();
    assert_eq!(cost, 4);
    assert_eq!(route, (0..5).map(|x| PathNode::new(x, 1)).collect::<Vec<_>>());
}

#[test]
fn advance_steps_through_route() {
    let mut map = GridMap::new(3, 1);
    for x in 0..3 {
        map.set_tile(x, 0, TileState::Room(0));
    }
    let mut p = Path::new(EntityHandle { id: 0, generation: 0 }, PathNode::new(2, 0), PathNode::new(0, 0));
    assert_eq!(p.advance(0, 10), None);
    p.run(&map);
    let nav = Navigator { x: 0, y: 0 };
    assert_eq!(p.segment(&nav), Some((PathNode::new(0, 0), PathNode::new(0, 0))));
    // No start recorded: no time spent, so a zero-length segment is crossed at once.
    assert_eq!(p.advance(100, 0), Some((0, 0)));
    assert_eq!(p.path_i, Some(1));
    assert_eq!(p.start_time, Some(100));
    assert_eq!(p.advance(150, 100), Some((1, 50)));
    assert_eq!(p.path_i, Some(1));
    assert_eq!(p.advance(230, 100), Some((1, 100)));
    assert_eq!(p.path_i, Some(2));
    assert_eq!(p.start_time, Some(230));
    assert_eq!(p.segment(&nav), Some((PathNode::new(1, 0), PathNode::new(2, 0))));
    assert_eq!(p.advance(330, 100), Some((2, 100)));
    assert_eq!(p.advance(400, 100), None);
    assert_eq!(p.segment(&nav), None);
}

#[test]
fn endpoints_scan_from_both_corners() {
    let mut map = GridMap::new(4, 4);
    assert_eq!(PathFinder::endpoints(&map), None);
    map.set_tile(2, 1, TileState::Room(0));
    map.set_tile(0, 3, TileState::Room(0));
    map.set_tile(3, 0, TileState::Room(0));
    assert_eq!(PathFinder::endpoints(&map), Some((PathNode::new(3, 0), PathNode::new(0, 3))));
}

#[test]
fn journeys_on_dead_maps_are_detected() {
    let map_a = EntityHandle { id: 1, generation: 0 };
    let map_b = EntityHandle { id: 1, generation: 1 };
    let p = Path::new(map_a, PathNode::new(0, 0), PathNode::new(1, 1));
    assert!(p.map_is_live(&[map_b, map_a]));
    assert!(!p.map_is_live(&[map_b]));
    assert!(!p.map_is_live(&[]));
}

#[test]
fn ring_search_stops_before_the_larger_side() {
    // 3 x 2 grid, only (2, 1) open: Manhattan distance 3 from (0, 0), not below max(3, 2).
    let mut map = GridMap::new(3, 2);
    map.set_tile(2, 1, TileState::Room(0));
    assert_eq!(map.get_closest_traversable_location(0, 0, false), None);
    assert_eq!(map.get_closest_traversable_location(1, 1, false), Some((2, 1)));
}

#[test]
fn ring_search_ties_go_to_scan_order() {
    let mut map = GridMap::new(5, 5);
    // Both at distance 1 from (2, 2) with equal Euclidean distance; (2, 3) is scanned first.
    map.set_tile(2, 1, TileState::Room(0));
    map.set_tile(2, 3, TileState::Room(0));
    assert_eq!(map.get_closest_traversable_location(2, 2, false), Some((2, 3)));
    map.set_tile(1, 2, TileState::Room(0));
    map.set_tile(3, 2, TileState::Room(0));
    assert_eq!(map.get_closest_traversable_location(2, 2, false), Some((2, 3)));
}

use dungeon_core::config::{MapConfig, Room};
use dungeon_core::grid::{EntityHandle, GridMap, TileState};
use rand::rngs::StdRng;
use rand::SeedableRng;

fn config(w: u32, h: u32) -> MapConfig {
    MapConfig {
        width: w,
        height: h,
        room_place_max_iterations: 400,
        corridor_turn_chance: 100,
        superfluous_doors_per_room: 500,
        room_sizes: vec![
            Room { name: "small".to_string(), frequency: 600, min_size: (3, 3), max_size: (5, 5) },
            Room { name: "large".to_string(), frequency: 300, min_size: (6, 6), max_size: (9, 9) },
        ],
    }
}

fn is_region(t: TileState) -> bool {
    matches!(t, TileState::Room(_) | TileState::Corridor(_))
}

fn joins(a: TileState, b: TileState) -> bool {
    match (a, b) {
        (TileState::Corridor(_), TileState::Room(_)) | (TileState::Room(_), TileState::Corridor(_)) => true,
        (TileState::Corridor(i), TileState::Corridor(j)) | (TileState::Room(i), TileState::Room(j)) => i != j,
        _ => false,
    }
}

fn tile(map: &GridMap, x: i64, y: i64) -> Option<TileState> {
    if x < 0 || y < 0 || x >= map.width() as i64 || y >= map.height() as i64 {
        None
    } else {
        Some(map.tile_at(x as usize, y as usize))
    }
}

fn door_joins(map: &GridMap, x: i64, y: i64) -> bool {
    let pair = |a: Option<TileState>, b: Option<TileState>| match (a, b) {
        (Some(a), Some(b)) => joins(a, b),
        _ => false,
    };
    pair(tile(map, x - 1, y), tile(map, x + 1, y)) || pair(tile(map, x, y - 1), tile(map, x, y + 1))
}

#[test]
fn doors_join_two_regions_after_selection() {
    for seed in 0..5u64 {
        let mut rng = StdRng::seed_from_u64(seed);
        let cfg = config(48, 40);
        let mut map = GridMap::new(48, 40);
        map.fill_rooms(&cfg, &mut rng);
        map.fill_maze(cfg.corridor_turn_chance, &mut rng);
        map.add_doors(cfg.superfluous_doors_per_room, &mut rng);
        let mut doors = 0;
        for x in 0..48i64 {
            for y in 0..40i64 {
                if tile(&map, x, y) == Some(TileState::Door) {
                    doors += 1;
                    assert!(door_joins(&map, x, y), "door at {} {}", x, y);
                }
            }
        }
        assert!(doors > 0);
    }
}

#[test]
fn wall_blocks_partition_the_walls() {
    for seed in 0..5u64 {
        let mut rng = StdRng::seed_from_u64(seed);
        let cfg = config(40, 32);
        let mut map = GridMap::new(40, 32);
        map.generate(&cfg, &mut rng);
        let mut count = vec![vec![0u32; 32]; 40];
        for o in map.walls() {
            let (s, e) = (o.start(), o.end());
            assert!(s.0 <= e.0 && s.1 <= e.1);
            for x in s.0..=e.0 {
                for y in s.1..=e.1 {
                    count[x][y] += 1;
                }
            }
        }
        for x in 0..40usize {
            for y in 0..32usize {
                let wall = map.tile_at(x, y) == TileState::Wall;
                assert_eq!(count[x][y], if wall { 1 } else { 0 }, "cell {} {}", x, y);
            }
        }
    }
}

#[test]
fn no_dead_ends_after_generation() {
    for seed in 0..5u64 {
        let mut rng = StdRng::seed_from_u64(seed);
        let cfg = config(40, 40);
        let mut map = GridMap::new(40, 40);
        map.generate(&cfg, &mut rng);
        for x in 0..40i64 {
            for y in 0..40i64 {
                if let Some(TileState::Corridor(_)) = tile(&map, x, y) {
                    let blocked = [(0, -1), (0, 1), (-1, 0), (1, 0)]
                        .iter()
                        .filter(|(dx, dy)| match tile(&map, x + dx, y + dy) {
                            None | Some(TileState::Wall) => true,
                            _ => false,
                        })
                        .count();
                    assert!(blocked < 3, "dead end at {} {}", x, y);
                }
            }
        }
    }
}

#[test]
fn generation_records_blocks() {
    let mut rng = StdRng::seed_from_u64(7);
    let cfg = config(64, 64);
    let mut map = GridMap::new(64, 64);
    map.generate(&cfg, &mut rng);
    assert!(!map.rooms().is_empty());
    assert_eq!(map.floors().len(), 1);
    assert_eq!(map.floors()[0].start(), (0, 0));
    assert_eq!(map.floors()[0].end(), (63, 63));
    for o in map.corridors() {
        assert_eq!(o.start(), o.end());
        assert!(matches!(map.tile_at(o.start().0, o.start().1), TileState::Corridor(_)));
    }
    for o in map.doors() {
        assert_eq!(o.start(), o.end());
        assert_eq!(map.tile_at(o.start().0, o.start().1), TileState::Door);
    }
    for o in map.rooms() {
        for x in o.start().0..=o.end().0 {
            for y in o.start().1..=o.end().1 {
                assert!(matches!(map.tile_at(x, y), TileState::Room(_)));
            }
        }
    }
}

#[test]
fn maze_leaves_no_seed_and_carves_only_walls() {
    let mut rng = StdRng::seed_from_u64(3);
    let mut map = GridMap::new(20, 20);
    map.fill_maze(100, &mut rng);
    let mut corridors = 0;
    for x in 0..20i64 {
        for y in 0..20i64 {
            let t = tile(&map, x, y).unwrap();
            if let TileState::Corridor(_) = t {
                corridors += 1;
            }
            if t == TileState::Wall {
                let all_wall = (-1..=1).all(|dx| {
                    (-1..=1).all(|dy| tile(&map, x + dx, y + dy) == Some(TileState::Wall))
                });
                assert!(!all_wall, "seed left at {} {}", x, y);
            }
        }
    }
    assert!(corridors > 0);
    assert!(!is_region(TileState::Wall));
}

#[test]
fn room_stamp_needs_walled_border() {
    let mut map = GridMap::new(10, 10);
    assert_eq!(map.try_stamp_room(1, 1, 3, 2, 0), Ok(()));
    for x in 0..10usize {
        for y in 0..10usize {
            let inside = (1..=3).contains(&x) && (1..=2).contains(&y);
            assert_eq!(map.tile_at(x, y), if inside { TileState::Room(0) } else { TileState::Wall });
        }
    }
    assert_eq!(map.rooms().len(), 1);
    assert_eq!(map.rooms()[0].start(), (1, 1));
    assert_eq!(map.rooms()[0].end(), (3, 2));
    // Its border touches the first room.
    assert_eq!(map.try_stamp_room(4, 1, 2, 2, 1), Err(()));
    assert_eq!(map.rooms().len(), 1);
    assert_eq!(map.try_stamp_room(5, 1, 2, 2, 1), Ok(()));
    assert_eq!(map.tile_at(5, 1), TileState::Room(1));
}

#[test]
fn dead_end_pass_fills_a_stub() {
    let mut map = GridMap::new(5, 5);
    map.set_tile(1, 2, TileState::Corridor(0));
    map.set_tile(2, 2, TileState::Corridor(0));
    map.set_tile(3, 2, TileState::Corridor(0));
    map.remove_dead_ends();
    for x in 0..5usize {
        for y in 0..5usize {
            assert_eq!(map.tile_at(x, y), TileState::Wall);
        }
    }
}

#[test]
fn dead_end_pass_keeps_a_loop() {
    let mut map = GridMap::new(5, 5);
    for &(x, y) in &[(1, 1), (2, 1), (3, 1), (1, 2), (3, 2), (1, 3), (2, 3), (3, 3)] {
        map.set_tile(x, y, TileState::Corridor(0));
    }
    assert_eq!(map.remove_dead_ends_pass(), 0);
    assert_eq!(map.tile_at(2, 1), TileState::Corridor(0));
}

fn snapshot(map: &GridMap) -> Vec<TileState> {
    let mut out = Vec::new();
    for x in 0..map.width() as usize {
        for y in 0..map.height() as usize {
            out.push(map.tile_at(x, y));
        }
    }
    out
}

#[test]
fn same_seed_same_map_other_seed_other_map() {
    let cfg = config(48, 48);
    let mut a = GridMap::new(48, 48);
    a.generate(&cfg, &mut StdRng::seed_from_u64(42));
    let mut b = GridMap::new(48, 48);
    b.generate(&cfg, &mut StdRng::seed_from_u64(42));
    let mut c = GridMap::new(48, 48);
    c.generate(&cfg, &mut StdRng::seed_from_u64(43));
    assert_eq!(snapshot(&a), snapshot(&b));
    assert_ne!(snapshot(&a), snapshot(&c));
}

#[test]
fn regenerating_starts_over() {
    let cfg = config(32, 32);
    let mut map = GridMap::new(32, 32);
    map.generate(&cfg, &mut StdRng::seed_from_u64(9));
    let first = snapshot(&map);
    map.generate(&cfg, &mut StdRng::seed_from_u64(9));
    assert_eq!(snapshot(&map), first);
    assert_eq!(map.floors().len(), 1);
}

#[test]
fn block_entities_are_set_once() {
    let cfg = config(24, 24);
    let mut map = GridMap::new(24, 24);
    map.generate(&cfg, &mut StdRng::seed_from_u64(2));
    let e = EntityHandle { id: 3, generation: 0 };
    map.set_wall_entity(0, e);
    assert_eq!(map.walls()[0].entity(), Some(e));
    map.set_floor_entity(0, e);
    assert_eq!(map.floors()[0].entity(), Some(e));
    assert!(map.walls().iter().skip(1).all(|o| o.entity().is_none()));
}

#[test]
fn no_rooms_when_budget_is_zero() {
    let mut cfg = config(20, 20);
    cfg.room_place_max_iterations = 0;
    let mut map = GridMap::new(20, 20);
    map.fill_rooms(&cfg, &mut StdRng::seed_from_u64(1));
    assert!(map.rooms().is_empty());
    assert!(snapshot(&map).iter().all(|t| *t == TileState::Wall));
}

#[test]
fn greedy_blocks_on_a_ring() {
    let mut map = GridMap::new(3, 3);
    map.set_tile(1, 1, TileState::Room(0));
    map.greedy_mesh_walls();
    let blocks: Vec<_> = map.walls().iter().map(|o| (o.start(), o.end())).collect();
    assert_eq!(
        blocks,
        vec![((0, 0), (2, 0)), ((0, 1), (0, 2)), ((2, 1), (2, 2)), ((1, 2), (1, 2))]
    );
}

#[test]
fn greedy_blocks_on_solid_grid() {
    let mut map = GridMap::new(4, 3);
    map.greedy_mesh_walls();
    let blocks: Vec<_> = map.walls().iter().map(|o| (o.start(), o.end())).collect();
    assert_eq!(blocks, vec![((0, 0), (3, 2))]);
}

#[test]
fn corridors_are_one_cell_wide() {
    for seed in 0..4u64 {
        let mut rng = StdRng::seed_from_u64(seed);
        let cfg = config(40, 30);
        let mut map = GridMap::new(40, 30);
        map.fill_rooms(&cfg, &mut rng);
        map.fill_maze(cfg.corridor_turn_chance, &mut rng);
        for x in 0..39i64 {
            for y in 0..29i64 {
                let cells = [tile(&map, x, y), tile(&map, x + 1, y), tile(&map, x, y + 1), tile(&map, x + 1, y + 1)];
                let all_open = cells.iter().all(|t| t.map_or(false, is_region));
                let any_corridor = cells.iter().any(|t| matches!(t, Some(TileState::Corridor(_))));
                assert!(!(all_open && any_corridor), "open square at {} {}", x, y);
            }
        }
    }
}

#[test]
fn room_placement_fits_or_fails_by_size() {
    let big = Room { name: "big".to_string(), frequency: 1000, min_size: (9, 2), max_size: (9, 2) };
    let mut map = GridMap::new(10, 10);
    assert_eq!(map.place_room(&big, &mut StdRng::seed_from_u64(0), 0), Err(()));
    assert!(map.rooms().is_empty());
    let small = Room { name: "small".to_string(), frequency: 1000, min_size: (2, 2), max_size: (4, 3) };
    for seed in 0..10u64 {
        let mut map = GridMap::new(10, 10);
        assert_eq!(map.place_room(&small, &mut StdRng::seed_from_u64(seed), 5), Ok(()));
        let o = &map.rooms()[0];
        let (sx, sy) = (o.end().0 - o.start().0 + 1, o.end().1 - o.start().1 + 1);
        assert!((2..=4).contains(&sx) && (2..=3).contains(&sy));
        assert!(o.start().0 >= 1 && o.start().1 >= 1 && o.end().0 <= 8 && o.end().1 <= 8);
    }
}

#[test]
fn rooms_keep_apart_and_rim_stays_wall() {
    for seed in 0..4u64 {
        let cfg = config(48, 48);
        let mut map = GridMap::new(48, 48);
        map.generate(&cfg, &mut StdRng::seed_from_u64(seed));
        let rooms: Vec<_> = map.rooms().iter().map(|o| (o.start(), o.end())).collect();
        for (j, a) in rooms.iter().enumerate() {
            for (k, b) in rooms.iter().enumerate() {
                if j != k {
                    let apart = a.1 .0 + 1 < b.0 .0 || b.1 .0 + 1 < a.0 .0 || a.1 .1 + 1 < b.0 .1 || b.1 .1 + 1 < a.0 .1;
                    assert!(apart, "rooms {} and {} touch", j, k);
                }
            }
        }
        for i in 0..48usize {
            for &(x, y) in &[(i, 0), (i, 47), (0, i), (47, i)] {
                assert_eq!(map.tile_at(x, y), TileState::Wall);
            }
        }
    }
}

#[test]
fn maze_leaves_no_cell_to_carve() {
    let mut rng = StdRng::seed_from_u64(8);
    let mut map = GridMap::new(24, 24);
    map.fill_maze(300, &mut rng);
    let carvable = |n: (i64, i64), from: (i64, i64)| {
        if tile(&map, n.0, n.1) != Some(TileState::Wall) {
            return false;
        }
        (-1..=1).all(|dx| {
            (-1..=1).all(|dy| {
                let o = (n.0 + dx, n.1 + dy);
                o == n || o == from || tile(&map, o.0, o.1) == Some(TileState::Wall)
            })
        })
    };
    for x in 0..24i64 {
        for y in 0..24i64 {
            if let Some(TileState::Corridor(_)) = tile(&map, x, y) {
                for (dx, dy) in [(0, -1), (0, 1), (-1, 0), (1, 0)] {
                    assert!(!carvable((x + dx, y + dy), (x, y)), "{} {} could grow", x, y);
                }
                assert!(x > 0 && y > 0 && x < 23 && y < 23);
            }
        }
    }
}

#[test]
fn pruning_keeps_a_corridor_between_rooms() {
    let mut map = GridMap::new(7, 3);
    map.set_tile(1, 1, TileState::Room(0));
    map.set_tile(2, 1, TileState::Door);
    for x in 3..5 {
        map.set_tile(x, 1, TileState::Corridor(0));
    }
    map.set_tile(5, 1, TileState::Door);
    map.remove_dead_ends();
    assert_eq!(map.tile_at(3, 1), TileState::Corridor(0));
    assert_eq!(map.tile_at(4, 1), TileState::Corridor(0));
}

#[test]
fn room_cells_match_room_records() {
    let cfg = config(48, 40);
    let mut map = GridMap::new(48, 40);
    map.generate(&cfg, &mut StdRng::seed_from_u64(17));
    let rooms: Vec<_> = map.rooms().iter().map(|o| (o.start(), o.end())).collect();
    for x in 0..48usize {
        for y in 0..40usize {
            if let TileState::Room(k) = map.tile_at(x, y) {
                let (s, e) = rooms[k as usize];
                assert!(s.0 <= x && x <= e.0 && s.1 <= y && y <= e.1);
            }
        }
    }
    for (k, (s, e)) in rooms.iter().enumerate() {
        for x in s.0..=e.0 {
            for y in s.1..=e.1 {
                assert_eq!(map.tile_at(x, y), TileState::Room(k as u32));
            }
        }
    }
}

#[test]
fn a_fitting_room_is_always_placed() {
    for seed in 0..6u64 {
        let mut cfg = config(20, 20);
        cfg.room_place_max_iterations = 1;
        let mut map = GridMap::new(20, 20);
        map.fill_rooms(&cfg, &mut StdRng::seed_from_u64(seed));
        assert!(!map.rooms().is_empty());
    }
}

use dungeon_core::animation::{Animation, AnimationId, Murder};
use dungeon_core::doors::{select_doors, Door};
use dungeon_core::grid::{EntityHandle, GridMap, MapObject, TileState};
use dungeon_core::spawn::{random_room, Error};
use dungeon_core::systems::{tile_map, MapGenerator, TileDirection};
use rand::rngs::StdRng;
use rand::SeedableRng;

#[test]
fn tile_map_table() {
    assert_eq!(tile_map(0), 0);
    assert_eq!(tile_map(2), 1);
    assert_eq!(tile_map(90), 22);
    assert_eq!(tile_map(255), 46);
    assert_eq!(tile_map(254), 45);
}

#[test]
fn terminal_animations() {
    assert!(AnimationId::DieUp.is_terminal());
    assert!(AnimationId::DieDownRight.is_terminal());
    assert!(!AnimationId::WalkUp.is_terminal());
    assert!(!AnimationId::WalkDownRight.is_terminal());
    let a = Animation::default();
    assert!(a.current.is_none() && a.next.is_none() && !a.is_done);
}

#[test]
fn wall_directions() {
    let mut map = GridMap::new(3, 3);
    assert_eq!(MapGenerator::wall_direction(&map, 1, 1), Some(TileDirection::Solid));
    map.set_tile(1, 1, TileState::Room(0));
    assert_eq!(MapGenerator::wall_direction(&map, 1, 1), None);
    // Only its south neighbour (smaller x) is open: mask 255 - 64 - 32 - 128 = 31, tile 12.
    assert_eq!(MapGenerator::wall_direction(&map, 2, 1), Some(TileDirection::North));
    assert_eq!(MapGenerator::wall_direction(&map, -1, -1), Some(TileDirection::Solid));
}

#[test]
fn door_equality_is_unordered() {
    let a = Door { index: (1, 1), separates: (TileState::Room(2), TileState::Corridor(1)) };
    let b = Door { index: (5, 5), separates: (TileState::Corridor(1), TileState::Room(2)) };
    let c = Door { index: (1, 1), separates: (TileState::Room(3), TileState::Corridor(1)) };
    assert!(a == b);
    assert!(a != c);
}

#[test]
fn door_selection_keeps_one_per_pair_plus_extra() {
    let a = Door { index: (1, 1), separates: (TileState::Room(0), TileState::Corridor(0)) };
    let b = Door { index: (2, 1), separates: (TileState::Corridor(0), TileState::Room(0)) };
    let c = Door { index: (3, 1), separates: (TileState::Room(1), TileState::Corridor(0)) };
    let d = Door { index: (4, 1), separates: (TileState::Room(0), TileState::Corridor(0)) };
    let cands = vec![a, b, c, d];
    let kept = select_doors(&cands, 0);
    assert_eq!(kept.iter().map(|d| d.index).collect::<Vec<_>>(), vec![(1, 1), (3, 1)]);
    let kept = select_doors(&cands, 1);
    assert_eq!(kept.iter().map(|d| d.index).collect::<Vec<_>>(), vec![(1, 1), (2, 1), (3, 1)]);
    let kept = select_doors(&cands, 5);
    assert_eq!(kept.len(), 4);
    // Three candidates join the same pair: with no extra, one door for that pair.
    let repeated = vec![a, b, d];
    assert_eq!(select_doors(&repeated, 0).len(), 1);
}

#[test]
fn resolve_door_needs_two_regions() {
    let mut map = GridMap::new(5, 3);
    map.set_tile(0, 1, TileState::Room(0));
    map.set_tile(2, 1, TileState::Corridor(0));
    map.set_tile(4, 1, TileState::Corridor(0));
    let d = map.resolve_door((1, 1), Some((0, 1)), Some((2, 1))).unwrap();
    assert_eq!(d.separates, (TileState::Room(0), TileState::Corridor(0)));
    assert!(map.resolve_door((3, 1), Some((2, 1)), Some((4, 1))).is_none());
    assert!(map.resolve_door((0, 0), None, Some((0, 1))).is_none());
    map.set_tile(4, 1, TileState::Corridor(1));
    assert!(map.resolve_door((3, 1), Some((2, 1)), Some((4, 1))).is_some());
}

#[test]
fn random_room_on_empty_map() {
    let mut rng = StdRng::seed_from_u64(1);
    let map = GridMap::new(10, 10);
    assert_eq!(random_room(&map, &mut rng).err(), Some(Error::MapHasNoRooms));
    let mut map = GridMap::new(10, 10);
    map.try_stamp_room(2, 2, 2, 2, 0).unwrap();
    let room = random_room(&map, &mut rng).unwrap();
    assert_eq!(room.start(), (2, 2));
}

#[test]
fn map_object_entity() {
    let mut o = MapObject::new((0, 0), (2, 3));
    assert!(o.entity().is_none());
    let e = EntityHandle { id: 4, generation: 1 };
    o.set_entity(e);
    assert_eq!(o.entity(), Some(e));
    assert_eq!(o.remove_entity(), e);
    assert!(o.entity().is_none());
}

#[test]
fn killing_queues_dying_animation() {
    let mut a = Animation { current: Some(AnimationId::WalkLeft), next: None, is_done: false };
    Murder::kill(&mut a);
    assert_eq!(a.next, Some(AnimationId::DieLeft));
    let mut b = Animation { current: Some(AnimationId::DieUp), next: Some(AnimationId::WalkUp), is_done: true };
    Murder::kill(&mut b);
    assert_eq!(b.next, Some(AnimationId::WalkUp));
    assert_eq!(Murder::dying_animation(None), None);
}

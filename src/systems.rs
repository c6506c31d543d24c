use vstd::prelude::*;
use crate::grid::GridMap;
use crate::path::PathNode;

verus! {

/// The kinds of tile a wall cell can be drawn with, from its neighbourhood.
#[derive(Debug, Clone, Copy, PartialEq, Eq, Structural)]
pub enum TileDirection {
    East,
    InnerCornerNorthEast,
    InnerCornerNorthWest,
    InnerCornerSouthEast,
    InnerCornerSouthWest,
    North,
    OuterCornerNorthEast,
    OuterCornerNorthWest,
    OuterCornerSouthEast,
    OuterCornerSouthWest,
    Solid,
    South,
    West,
    Blob(usize),
    Floor,
}

/// The position in the 47-tile blob set of a neighbourhood mask, if it is one: a mask has bits
/// 1, 2, 4 for north-west, north, north-east, 8 and 16 for west and east, 32, 64, 128 for
/// south-west, south, south-east, and a corner bit only together with both sides next to it.
pub open spec fn blob_tile(neigh: u32) -> Option<u32> {
    match neigh {
        0 => Some(0u32),
        2 => Some(1u32),
        8 => Some(2u32),
        10 => Some(3u32),
        11 => Some(4u32),
        16 => Some(5u32),
        18 => Some(6u32),
        22 => Some(7u32),
        24 => Some(8u32),
        26 => Some(9u32),
        27 => Some(10u32),
        30 => Some(11u32),
        31 => Some(12u32),
        64 => Some(13u32),
        66 => Some(14u32),
        72 => Some(15u32),
        74 => Some(16u32),
        75 => Some(17u32),
        80 => Some(18u32),
        82 => Some(19u32),
        86 => Some(20u32),
        88 => Some(21u32),
        90 => Some(22u32),
        91 => Some(23u32),
        94 => Some(24u32),
        95 => Some(25u32),
        104 => Some(26u32),
        106 => Some(27u32),
        107 => Some(28u32),
        120 => Some(29u32),
        122 => Some(30u32),
        123 => Some(31u32),
        126 => Some(32u32),
        127 => Some(33u32),
        208 => Some(34u32),
        210 => Some(35u32),
        214 => Some(36u32),
        216 => Some(37u32),
        218 => Some(38u32),
        219 => Some(39u32),
        222 => Some(40u32),
        223 => Some(41u32),
        248 => Some(42u32),
        250 => Some(43u32),
        251 => Some(44u32),
        254 => Some(45u32),
        255 => Some(46u32),
        _ => None,
    }
}

/// The blob-set position of a neighbourhood mask.
pub fn tile_map(neigh: u32) -> (r: u32)
    requires
        blob_tile(neigh) is Some,
    ensures
        blob_tile(neigh) == Some(r),
{
    match neigh {
        0 => 0,
        2 => 1,
        8 => 2,
        10 => 3,
        11 => 4,
        16 => 5,
        18 => 6,
        22 => 7,
        24 => 8,
        26 => 9,
        27 => 10,
        30 => 11,
        31 => 12,
        64 => 13,
        66 => 14,
        72 => 15,
        74 => 16,
        75 => 17,
        80 => 18,
        82 => 19,
        86 => 20,
        88 => 21,
        90 => 22,
        91 => 23,
        94 => 24,
        95 => 25,
        104 => 26,
        106 => 27,
        107 => 28,
        120 => 29,
        122 => 30,
        123 => 31,
        126 => 32,
        127 => 33,
        208 => 34,
        210 => 35,
        214 => 36,
        216 => 37,
        218 => 38,
        219 => 39,
        222 => 40,
        223 => 41,
        248 => 42,
        250 => 43,
        251 => 44,
        254 => 45,
        255 => 46,
        _ => 0,
    }
}

/// The tile drawn for a wall at blob-set position `t`: the close matches, and the raw blob
/// position for the rest.
pub open spec fn direction_spec(t: u32) -> TileDirection {
    match t {
        36 => TileDirection::West,
        41 => TileDirection::InnerCornerNorthWest,
        12 => TileDirection::North,
        28 => TileDirection::East,
        33 => TileDirection::InnerCornerNorthEast,
        42 => TileDirection::South,
        45 => TileDirection::InnerCornerSouthWest,
        44 => TileDirection::InnerCornerSouthEast,
        46 => TileDirection::Solid,
        7 => TileDirection::OuterCornerSouthEast,
        4 => TileDirection::OuterCornerSouthWest,
        34 => TileDirection::OuterCornerNorthEast,
        26 => TileDirection::OuterCornerNorthWest,
        35 | 14 | 19 | 20 => TileDirection::West,
        8 | 11 | 10 | 9 => TileDirection::North,
        27 => TileDirection::East,
        29 => TileDirection::South,
        40 | 17 | 37 | 25 | 21 | 15 | 16 | 39 | 22 | 24 | 23 | 38 => TileDirection::InnerCornerNorthWest,
        31 => TileDirection::InnerCornerNorthEast,
        43 => TileDirection::InnerCornerSouthWest,
        1 | 5 | 6 => TileDirection::OuterCornerSouthEast,
        13 | 18 => TileDirection::OuterCornerNorthEast,
        2 | 3 => TileDirection::OuterCornerSouthWest,
        32 => TileDirection::Solid,
        0 => TileDirection::OuterCornerSouthEast,
        _ => TileDirection::Blob(t as usize),
    }
}

pub fn direction_of_tile(t: u32) -> (r: TileDirection)
    ensures
        r == direction_spec(t),
{
    match t {
        36 => TileDirection::West,
        41 => TileDirection::InnerCornerNorthWest,
        12 => TileDirection::North,
        28 => TileDirection::East,
        33 => TileDirection::InnerCornerNorthEast,
        42 => TileDirection::South,
        45 => TileDirection::InnerCornerSouthWest,
        44 => TileDirection::InnerCornerSouthEast,
        46 => TileDirection::Solid,
        7 => TileDirection::OuterCornerSouthEast,
        4 => TileDirection::OuterCornerSouthWest,
        34 => TileDirection::OuterCornerNorthEast,
        26 => TileDirection::OuterCornerNorthWest,
        35 | 14 | 19 | 20 => TileDirection::West,
        8 | 11 | 10 | 9 => TileDirection::North,
        27 => TileDirection::East,
        29 => TileDirection::South,
        40 | 17 | 37 | 25 | 21 | 15 | 16 | 39 | 22 | 24 | 23 | 38 => TileDirection::InnerCornerNorthWest,
        31 => TileDirection::InnerCornerNorthEast,
        43 => TileDirection::InnerCornerSouthWest,
        1 | 5 | 6 => TileDirection::OuterCornerSouthEast,
        13 | 18 => TileDirection::OuterCornerNorthEast,
        2 | 3 => TileDirection::OuterCornerSouthWest,
        32 => TileDirection::Solid,
        0 => TileDirection::OuterCornerSouthEast,
        _ => TileDirection::Blob(t as usize),
    }
}

/// The neighbourhood mask of a wall cell from which of its neighbours are walls.
pub open spec fn neighbour_mask(
    nw: bool,
    n: bool,
    ne: bool,
    w: bool,
    e: bool,
    sw: bool,
    s: bool,
    se: bool,
) -> int {
    (if nw { 1int } else { 0 }) + (if n { 2int } else { 0 }) + (if ne { 4int } else { 0 }) + (if w {
        8int
    } else {
        0
    }) + (if e { 16int } else { 0 }) + (if sw { 32int } else { 0 }) + (if s { 64int } else { 0 }) + (if se {
        128int
    } else {
        0
    })
}

/// A mask whose corner bits are set only with both sides next to them lies in the blob set.
pub proof fn lemma_mask_in_blob_set(n: bool, s: bool, w: bool, e: bool, nw: bool, ne: bool, sw: bool, se: bool)
    requires
        nw ==> n && w,
        ne ==> n && e,
        sw ==> s && w,
        se ==> s && e,
    ensures
        0 <= neighbour_mask(nw, n, ne, w, e, sw, s, se) < 256,
        blob_tile(neighbour_mask(nw, n, ne, w, e, sw, s, se) as u32) is Some,
{
}

/// Wall tiles are chosen when the map is drawn.
pub struct MapGenerator;

impl MapGenerator {
    /// Whether `(x, y)` counts as wall when choosing tiles: off the grid, or a wall cell.
    pub fn wall_at(map: &GridMap, x: i64, y: i64) -> (r: bool)
        requires
            map.wf(),
        ensures
            r == map.blocked(x as int, y as int),
    {
        if !map.is_inside(x, y) {
            true
        } else {
            map.tile_at(x as usize, y as usize).is_wall()
        }
    }

    /// The tile for the cell `(x, y)`: none for an open cell; for a wall, the one that its
    /// neighbourhood selects. Neighbours towards larger `x` are north, smaller `x` south,
    /// larger `y` east and smaller `y` west; a corner counts only with both sides next to it.
    pub fn wall_direction(map: &GridMap, x: i64, y: i64) -> (r: Option<TileDirection>)
        requires
            map.wf(),
            -1 <= x <= i32::MAX,
            -1 <= y <= i32::MAX,
        ensures
            !map.blocked(x as int, y as int) ==> r is None,
            map.blocked(x as int, y as int) ==> {
                let (xi, yi) = (x as int, y as int);
                let south = map.blocked(xi - 1, yi);
                let north = map.blocked(xi + 1, yi);
                let west = map.blocked(xi, yi - 1);
                let east = map.blocked(xi, yi + 1);
                let mask = neighbour_mask(
                    north && west && map.blocked(xi + 1, yi - 1),
                    north,
                    north && east && map.blocked(xi + 1, yi + 1),
                    west,
                    east,
                    south && west && map.blocked(xi - 1, yi - 1),
                    south,
                    south && east && map.blocked(xi - 1, yi + 1),
                );
                r == Some(direction_spec(blob_tile(mask as u32).unwrap()))
            },
    {
        if !MapGenerator::wall_at(map, x, y) {
            return None;
        }
        let south = MapGenerator::wall_at(map, x - 1, y);
        let north = MapGenerator::wall_at(map, x + 1, y);
        let west = MapGenerator::wall_at(map, x, y - 1);
        let east = MapGenerator::wall_at(map, x, y + 1);
        let north_east = north && east && MapGenerator::wall_at(map, x + 1, y + 1);
        let north_west = north && west && MapGenerator::wall_at(map, x + 1, y - 1);
        let south_east = south && east && MapGenerator::wall_at(map, x - 1, y + 1);
        let south_west = south && west && MapGenerator::wall_at(map, x - 1, y - 1);
        let index: u32 = (if north_west { 1 } else { 0 }) + (if north { 2 } else { 0 }) + (if north_east {
            4
        } else {
            0
        }) + (if west { 8 } else { 0 }) + (if east { 16 } else { 0 }) + (if south_west { 32 } else { 0 }) + (
        if south {
            64
        } else {
            0
        }) + (if south_east { 128 } else { 0 });
        proof {
            lemma_mask_in_blob_set(north, south, west, east, north_west, north_east, south_west, south_east);
        }
        let tile = tile_map(index);
        Some(direction_of_tile(tile))
    }
}

/// Journeys run between two cells chosen on the map.
pub struct PathFinder;

impl PathFinder {
    /// The first open cell scanning rows from the top-left corner, and the last one, or `None`
    /// when the map has no open cell.
    pub fn endpoints(map: &GridMap) -> (r: Option<(PathNode, PathNode)>)
        requires
            map.wf(),
        ensures
            r is None <==> forall|a: int, b: int| !#[trigger] map.open_at(a, b),
            r matches Some((o, t)) ==> {
                &&& map.open_at(o.x as int, o.y as int)
                &&& map.open_at(t.x as int, t.y as int)
                &&& forall|a: int, b: int|
                    #[trigger] map.open_at(a, b) ==> (o.y < b || (o.y == b && o.x <= a)) && (b < t.y || (b
                        == t.y && a <= t.x))
            },
    {
        let w = map.width() as usize;
        let h = map.height() as usize;
        let mut first: Option<(usize, usize)> = None;
        let mut last: Option<(usize, usize)> = None;
        let mut y: usize = 0;
        while y < h
            invariant
                map.wf(),
                w == map.width_spec(),
                h == map.height_spec(),
                y <= h,
                first is None <==> forall|a: int, b: int| b < y ==> !#[trigger] map.open_at(a, b),
                first matches Some(c) ==> map.open_at(c.0 as int, c.1 as int) && forall|a: int, b: int|
                    #[trigger] map.open_at(a, b) ==> (c.1 < b || (c.1 == b && c.0 <= a)),
                first is None <==> last is None,
                last matches Some(c) ==> map.open_at(c.0 as int, c.1 as int) && forall|a: int, b: int|
                    #[trigger] map.open_at(a, b) && b < y ==> (b < c.1 || (b == c.1 && a <= c.0)),
            decreases h - y,
        {
            let mut x: usize = 0;
            while x < w
                invariant
                    map.wf(),
                    w == map.width_spec(),
                    h == map.height_spec(),
                    y < h,
                    x <= w,
                    first is None <==> forall|a: int, b: int|
                        (b < y || (b == y && a < x)) ==> !#[trigger] map.open_at(a, b),
                    first matches Some(c) ==> map.open_at(c.0 as int, c.1 as int) && forall|a: int, b: int|
                        #[trigger] map.open_at(a, b) ==> (c.1 < b || (c.1 == b && c.0 <= a)),
                    first is None <==> last is None,
                    last matches Some(c) ==> map.open_at(c.0 as int, c.1 as int) && forall|a: int, b: int|
                        #[trigger] map.open_at(a, b) && (b < y || (b == y && a < x)) ==> (b < c.1 || (b == c.1 && a
                            <= c.0)),
                decreases w - x,
            {
                let open = !map.tile_at(x, y).is_wall();
                if open {
                    if first.is_none() {
                        first = Some((x, y));
                    }
                    last = Some((x, y));
                }
                proof {
                    if open {
                        assert(map.open_at(x as int, y as int));
                    } else {
                        assert(!map.open_at(x as int, y as int));
                    }
                }
                x += 1;
            }
            y += 1;
        }
        match (first, last) {
            (Some(o), Some(t)) => Some(
                (PathNode { x: o.0 as i32, y: o.1 as i32 }, PathNode { x: t.0 as i32, y: t.1 as i32 }),
            ),
            _ => None,
        }
    }
}

} // verus!

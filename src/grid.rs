use vstd::prelude::*;

verus! {

/// Largest width or height of a grid: cell coordinates and path costs stay well inside `i32`.
pub const MAX_SIDE: usize = 32768;

/// The state of one grid cell.
#[derive(Debug, Clone, Copy, PartialEq, Eq, Structural)]
pub enum TileState {
    Wall,
    Door,
    Corridor(u32),
    Room(u32),
}

impl TileState {
    pub open spec fn is_wall_spec(self) -> bool {
        self is Wall
    }

    pub fn is_wall(&self) -> (r: bool)
        ensures
            r == self.is_wall_spec(),
    {
        match self {
            TileState::Wall => true,
            _ => false,
        }
    }
}

impl Default for TileState {
    fn default() -> (r: TileState)
        ensures
            r == TileState::Wall,
    {
        TileState::Wall
    }
}

/// Dense `width x height` storage of tiles, indexed by `(x, y)`.
#[verifier::external_body]
pub struct TileGrid {
    cells: ndarray::Array2<TileState>,
}

/// The contents of a tile grid: `tile_cells(g)[x][y]` is the tile at `(x, y)`.
pub uninterp spec fn tile_cells(g: TileGrid) -> Seq<Seq<TileState>>;

/// A grid of the given width and height whose every cell is `Wall`.
pub open spec fn all_walls(w: nat, h: nat) -> Seq<Seq<TileState>> {
    Seq::new(w, |i: int| Seq::new(h, |j: int| TileState::Wall))
}

impl TileGrid {
    /// Relies on ndarray's `Array2::from_elem`: a `(w, h)` array with every element equal to the
    /// given one.
    #[verifier::external_body]
    pub(crate) fn filled_with_walls(w: usize, h: usize) -> (r: TileGrid)
        requires
            w <= MAX_SIDE,
            h <= MAX_SIDE,
        ensures
            tile_cells(r) == all_walls(w as nat, h as nat),
    {
        TileGrid { cells: ndarray::Array2::from_elem((w, h), TileState::Wall) }
    }

    /// Relies on ndarray's indexing by `(usize, usize)`: the element at that position.
    #[verifier::external_body]
    pub(crate) fn get(&self, x: usize, y: usize) -> (r: TileState)
        requires
            x < tile_cells(*self).len(),
            y < tile_cells(*self)[x as int].len(),
        ensures
            r == tile_cells(*self)[x as int][y as int],
    {
        self.cells[(x, y)]
    }

    /// Relies on ndarray's mutable indexing by `(usize, usize)`: only that element changes.
    #[verifier::external_body]
    pub(crate) fn set(&mut self, x: usize, y: usize, v: TileState)
        requires
            x < tile_cells(*old(self)).len(),
            y < tile_cells(*old(self))[x as int].len(),
        ensures
            tile_cells(*final(self)) == tile_cells(*old(self)).update(
                x as int,
                tile_cells(*old(self))[x as int].update(y as int, v),
            ),
    {
        self.cells[(x, y)] = v;
    }
}


/// Dense `width x height` storage of flags, indexed by `(x, y)`.
#[verifier::external_body]
pub struct FlagGrid {
    cells: ndarray::Array2<bool>,
}

/// The contents of a flag grid: `flag_cells(g)[x][y]` is the flag at `(x, y)`.
pub uninterp spec fn flag_cells(g: FlagGrid) -> Seq<Seq<bool>>;

impl FlagGrid {
    /// Relies on ndarray's `Array2::from_elem`: a `(w, h)` array with every element equal to the
    /// given one.
    #[verifier::external_body]
    pub(crate) fn filled_false(w: usize, h: usize) -> (r: FlagGrid)
        requires
            w <= MAX_SIDE,
            h <= MAX_SIDE,
        ensures
            flag_cells(r) == Seq::new(w as nat, |i: int| Seq::new(h as nat, |j: int| false)),
    {
        FlagGrid { cells: ndarray::Array2::from_elem((w, h), false) }
    }

    /// Relies on ndarray's indexing by `(usize, usize)`: the element at that position.
    #[verifier::external_body]
    pub(crate) fn get(&self, x: usize, y: usize) -> (r: bool)
        requires
            x < flag_cells(*self).len(),
            y < flag_cells(*self)[x as int].len(),
        ensures
            r == flag_cells(*self)[x as int][y as int],
    {
        self.cells[(x, y)]
    }

    /// Relies on ndarray's mutable indexing by `(usize, usize)`: only that element changes.
    #[verifier::external_body]
    pub(crate) fn set(&mut self, x: usize, y: usize, v: bool)
        requires
            x < flag_cells(*old(self)).len(),
            y < flag_cells(*old(self))[x as int].len(),
        ensures
            flag_cells(*final(self)) == flag_cells(*old(self)).update(
                x as int,
                flag_cells(*old(self))[x as int].update(y as int, v),
            ),
    {
        self.cells[(x, y)] = v;
    }
}

/// A non-owning reference to an entity that some other layer owns.
#[derive(Debug, Clone, Copy, PartialEq, Eq, Structural)]
pub struct EntityHandle {
    pub id: u32,
    pub generation: u32,
}

/// An axis-aligned block of cells, `start` to `end` inclusive, with an optional associated
/// entity.
#[derive(Debug)]
pub struct MapObject {
    start: (usize, usize),
    end: (usize, usize),
    entity: Option<EntityHandle>,
}

impl MapObject {
    pub closed spec fn start_spec(&self) -> (usize, usize) {
        self.start
    }

    pub closed spec fn end_spec(&self) -> (usize, usize) {
        self.end
    }

    pub closed spec fn entity_spec(&self) -> Option<EntityHandle> {
        self.entity
    }

    /// A block from `start` to `end` with no entity.
    pub fn new(start: (usize, usize), end: (usize, usize)) -> (r: MapObject)
        ensures
            r.start_spec() == start,
            r.end_spec() == end,
            r.entity_spec() is None,
    {
        MapObject { start, end, entity: None }
    }

    pub fn start(&self) -> (r: (usize, usize))
        ensures
            r == self.start_spec(),
    {
        self.start
    }

    pub fn end(&self) -> (r: (usize, usize))
        ensures
            r == self.end_spec(),
    {
        self.end
    }

    pub fn entity(&self) -> (r: Option<EntityHandle>)
        ensures
            r == self.entity_spec(),
    {
        self.entity
    }

    /// Associates an entity; associating a second one is a misuse.
    pub fn set_entity(&mut self, entity: EntityHandle)
        requires
            old(self).entity_spec() is None,
        ensures
            final(self).entity_spec() == Some(entity),
            final(self).start_spec() == old(self).start_spec(),
            final(self).end_spec() == old(self).end_spec(),
    {
        self.entity = Some(entity);
    }

    /// Takes the associated entity away; taking one that is absent is a misuse.
    pub fn remove_entity(&mut self) -> (r: EntityHandle)
        requires
            old(self).entity_spec() is Some,
        ensures
            old(self).entity_spec() == Some(r),
            final(self).entity_spec() is None,
            final(self).start_spec() == old(self).start_spec(),
            final(self).end_spec() == old(self).end_spec(),
    {
        let e = self.entity.unwrap();
        self.entity = None;
        e
    }
}

/// The offset of the `k`-th neighbour: up, down, left, right, then the four diagonals
/// up-left, up-right, down-left, down-right.
pub open spec fn dir_offset(k: int) -> (int, int) {
    if k == 0 {
        (0, -1)
    } else if k == 1 {
        (0, 1)
    } else if k == 2 {
        (-1, 0)
    } else if k == 3 {
        (1, 0)
    } else if k == 4 {
        (-1, -1)
    } else if k == 5 {
        (1, -1)
    } else if k == 6 {
        (-1, 1)
    } else {
        (1, 1)
    }
}

pub fn neighbour_offset(k: usize) -> (r: (i64, i64))
    requires
        k < 8,
    ensures
        r.0 as int == dir_offset(k as int).0,
        r.1 as int == dir_offset(k as int).1,
{
    if k == 0 {
        (0, -1)
    } else if k == 1 {
        (0, 1)
    } else if k == 2 {
        (-1, 0)
    } else if k == 3 {
        (1, 0)
    } else if k == 4 {
        (-1, -1)
    } else if k == 5 {
        (1, -1)
    } else if k == 6 {
        (-1, 1)
    } else {
        (1, 1)
    }
}

/// The number of cells in a column that are not walls.
pub open spec fn open_in_column(col: Seq<TileState>) -> nat
    decreases col.len(),
{
    if col.len() == 0 {
        0
    } else {
        open_in_column(col.drop_last()) + if col.last() is Wall { 0nat } else { 1nat }
    }
}

/// The number of cells of a grid that are not walls.
pub open spec fn open_cells(cells: Seq<Seq<TileState>>) -> nat
    decreases cells.len(),
{
    if cells.len() == 0 {
        0
    } else {
        open_cells(cells.drop_last()) + open_in_column(cells.last())
    }
}

pub proof fn lemma_open_in_column_bound(col: Seq<TileState>)
    ensures
        open_in_column(col) <= col.len(),
    decreases col.len(),
{
    if col.len() > 0 {
        lemma_open_in_column_bound(col.drop_last());
    }
}

pub proof fn lemma_open_cells_bound(cells: Seq<Seq<TileState>>, h: nat)
    requires
        forall|x: int| 0 <= x < cells.len() ==> #[trigger] cells[x].len() == h,
    ensures
        open_cells(cells) <= cells.len() * h,
    decreases cells.len(),
{
    if cells.len() > 0 {
        lemma_open_cells_bound(cells.drop_last(), h);
        lemma_open_in_column_bound(cells.last());
        assert(cells.last().len() == h);
        assert((cells.len() - 1) * h + h == cells.len() * h) by (nonlinear_arith);
    }
}

pub proof fn lemma_open_in_column_update(col: Seq<TileState>, j: int, v: TileState)
    requires
        0 <= j < col.len(),
    ensures
        open_in_column(col.update(j, v)) + (if col[j] is Wall { 0int } else { 1int })
            == open_in_column(col) + (if v is Wall { 0int } else { 1int }),
    decreases col.len(),
{
    let u = col.update(j, v);
    if j == col.len() - 1 {
        assert(u.drop_last() =~= col.drop_last());
    } else {
        lemma_open_in_column_update(col.drop_last(), j, v);
        assert(u.drop_last() =~= col.drop_last().update(j, v));
    }
}

pub proof fn lemma_open_cells_update(cells: Seq<Seq<TileState>>, i: int, j: int, v: TileState)
    requires
        0 <= i < cells.len(),
        0 <= j < cells[i].len(),
    ensures
        open_cells(cells.update(i, cells[i].update(j, v))) + (if cells[i][j] is Wall {
            0int
        } else {
            1int
        }) == open_cells(cells) + (if v is Wall { 0int } else { 1int }),
    decreases cells.len(),
{
    let u = cells.update(i, cells[i].update(j, v));
    if i == cells.len() - 1 {
        assert(u.drop_last() =~= cells.drop_last());
        lemma_open_in_column_update(cells[i], j, v);
    } else {
        lemma_open_cells_update(cells.drop_last(), i, j, v);
        assert(u.drop_last() =~= cells.drop_last().update(i, cells[i].update(j, v)));
    }
}

/// A `width x height` grid of tiles together with the blocks recorded while generating it.
pub struct GridMap {
    width: usize,
    height: usize,
    tiles: TileGrid,
    rooms: Vec<MapObject>,
    doors: Vec<MapObject>,
    corridors: Vec<MapObject>,
    floors: Vec<MapObject>,
    walls: Vec<MapObject>,
}

impl GridMap {
    pub closed spec fn width_spec(&self) -> int {
        self.width as int
    }

    pub closed spec fn height_spec(&self) -> int {
        self.height as int
    }

    /// The tiles: `self.cells()[x][y]` is the tile at `(x, y)`.
    pub closed spec fn cells(&self) -> Seq<Seq<TileState>> {
        tile_cells(self.tiles)
    }

    pub open spec fn wf(&self) -> bool {
        &&& 1 <= self.width_spec() <= MAX_SIDE
        &&& 1 <= self.height_spec() <= MAX_SIDE
        &&& self.cells().len() == self.width_spec()
        &&& forall|x: int|
            0 <= x < self.width_spec() ==> #[trigger] self.cells()[x].len() == self.height_spec()
    }

    pub open spec fn in_grid(&self, x: int, y: int) -> bool {
        0 <= x < self.width_spec() && 0 <= y < self.height_spec()
    }

    pub open spec fn tile(&self, x: int, y: int) -> TileState {
        self.cells()[x][y]
    }

    /// The cell is off the grid or a wall.
    pub open spec fn blocked(&self, x: int, y: int) -> bool {
        !self.in_grid(x, y) || self.tile(x, y) is Wall
    }

    pub closed spec fn rooms_spec(&self) -> Seq<MapObject> {
        self.rooms@
    }

    pub closed spec fn doors_spec(&self) -> Seq<MapObject> {
        self.doors@
    }

    pub closed spec fn corridors_spec(&self) -> Seq<MapObject> {
        self.corridors@
    }

    pub closed spec fn floors_spec(&self) -> Seq<MapObject> {
        self.floors@
    }

    pub closed spec fn walls_spec(&self) -> Seq<MapObject> {
        self.walls@
    }

    /// A grid of the given size, all walls, with nothing recorded.
    pub fn new(width: u32, height: u32) -> (r: GridMap)
        requires
            1 <= width <= MAX_SIDE,
            1 <= height <= MAX_SIDE,
        ensures
            r.wf(),
            r.width_spec() == width,
            r.height_spec() == height,
            r.cells() == all_walls(width as nat, height as nat),
            r.rooms_spec().len() == 0,
            r.doors_spec().len() == 0,
            r.corridors_spec().len() == 0,
            r.floors_spec().len() == 0,
            r.walls_spec().len() == 0,
    {
        let w = width as usize;
        let h = height as usize;
        GridMap {
            width: w,
            height: h,
            tiles: TileGrid::filled_with_walls(w, h),
            rooms: Vec::new(),
            doors: Vec::new(),
            corridors: Vec::new(),
            floors: Vec::new(),
            walls: Vec::new(),
        }
    }

    pub fn width(&self) -> (r: u32)
        requires
            self.wf(),
        ensures
            r == self.width_spec(),
    {
        self.width as u32
    }

    pub fn height(&self) -> (r: u32)
        requires
            self.wf(),
        ensures
            r == self.height_spec(),
    {
        self.height as u32
    }

    /// The tile at `(x, y)`, which must lie on the grid.
    pub fn tile_at(&self, x: usize, y: usize) -> (r: TileState)
        requires
            self.wf(),
            self.in_grid(x as int, y as int),
        ensures
            r == self.tile(x as int, y as int),
    {
        self.tiles.get(x, y)
    }

    pub fn is_wall(&self, x: u32, y: u32) -> (r: bool)
        requires
            self.wf(),
            self.in_grid(x as int, y as int),
        ensures
            r == (self.tile(x as int, y as int) is Wall),
    {
        self.tiles.get(x as usize, y as usize).is_wall()
    }

    /// Whether `(x, y)` lies on the grid.
    pub fn is_inside(&self, x: i64, y: i64) -> (r: bool)
        ensures
            r == self.in_grid(x as int, y as int),
    {
        if x < 0 || y < 0 {
            false
        } else if x as u64 >= self.width as u64 || y as u64 >= self.height as u64 {
            false
        } else {
            true
        }
    }

    /// The cell at offset `k` from `(x, y)`, if it lies on the grid.
    pub fn resolve_neighbour(&self, x: usize, y: usize, k: usize) -> (r: Option<(usize, usize)>)
        requires
            self.wf(),
            self.in_grid(x as int, y as int),
            k < 8,
        ensures
            r == (if self.in_grid(x + dir_offset(k as int).0, y + dir_offset(k as int).1) {
                Some(((x + dir_offset(k as int).0) as usize, (y + dir_offset(k as int).1) as usize))
            } else {
                None::<(usize, usize)>
            }),
    {
        let (dx, dy) = neighbour_offset(k);
        let nx = x as i64 + dx;
        let ny = y as i64 + dy;
        if self.is_inside(nx, ny) {
            Some((nx as usize, ny as usize))
        } else {
            None
        }
    }

    /// The number of cells that are not walls.
    pub open spec fn open_count(&self) -> nat {
        open_cells(self.cells())
    }

    /// The recorded blocks are unchanged from `o`.
    pub open spec fn same_records(&self, o: &GridMap) -> bool {
        &&& self.rooms_spec() == o.rooms_spec()
        &&& self.doors_spec() == o.doors_spec()
        &&& self.corridors_spec() == o.corridors_spec()
        &&& self.floors_spec() == o.floors_spec()
        &&& self.walls_spec() == o.walls_spec()
    }

    /// Same size as `o`.
    pub open spec fn same_shape(&self, o: &GridMap) -> bool {
        &&& self.width_spec() == o.width_spec()
        &&& self.height_spec() == o.height_spec()
    }

    pub proof fn lemma_open_count_bound(&self)
        requires
            self.wf(),
        ensures
            self.open_count() <= self.width_spec() * self.height_spec(),
            self.width_spec() * self.height_spec() <= MAX_SIDE * MAX_SIDE,
    {
        lemma_open_cells_bound(self.cells(), self.height_spec() as nat);
        assert(self.width_spec() * self.height_spec() <= MAX_SIDE * MAX_SIDE) by (nonlinear_arith)
            requires
                1 <= self.width_spec() <= MAX_SIDE,
                1 <= self.height_spec() <= MAX_SIDE,
        ;
    }

    /// Sets the tile at `(x, y)`, which must lie on the grid.
    pub fn set_tile(&mut self, x: usize, y: usize, v: TileState)
        requires
            old(self).wf(),
            old(self).in_grid(x as int, y as int),
        ensures
            final(self).wf(),
            final(self).same_shape(old(self)),
            final(self).same_records(old(self)),
            final(self).cells() == old(self).cells().update(
                x as int,
                old(self).cells()[x as int].update(y as int, v),
            ),
            final(self).open_count() + (if old(self).tile(x as int, y as int) is Wall {
                0int
            } else {
                1int
            }) == old(self).open_count() + (if v is Wall { 0int } else { 1int }),
    {
        proof {
            lemma_open_cells_update(self.cells(), x as int, y as int, v);
        }
        self.tiles.set(x, y, v);
        proof {
            assert forall|i: int| 0 <= i < self.width_spec() implies #[trigger] self.cells()[i].len()
                == self.height_spec() by {
                if i != x {
                    assert(self.cells()[i] == old(self).cells()[i]);
                }
            }
        }
    }

    /// Every cell back to `Wall` and nothing recorded.
    pub fn reset_state(&mut self)
        requires
            old(self).wf(),
        ensures
            final(self).wf(),
            final(self).same_shape(old(self)),
            final(self).cells() == all_walls(old(self).width_spec() as nat, old(self).height_spec() as nat),
            final(self).rooms_spec().len() == 0,
            final(self).doors_spec().len() == 0,
            final(self).corridors_spec().len() == 0,
            final(self).floors_spec().len() == 0,
            final(self).walls_spec().len() == 0,
    {
        self.tiles = TileGrid::filled_with_walls(self.width, self.height);
        self.rooms.clear();
        self.doors.clear();
        self.corridors.clear();
        self.floors.clear();
        self.walls.clear();
    }

    pub fn push_room(&mut self, o: MapObject)
        ensures
            final(self).rooms_spec() == old(self).rooms_spec().push(o),
            final(self).doors_spec() == old(self).doors_spec(),
            final(self).corridors_spec() == old(self).corridors_spec(),
            final(self).floors_spec() == old(self).floors_spec(),
            final(self).walls_spec() == old(self).walls_spec(),
            final(self).cells() == old(self).cells(),
            final(self).same_shape(old(self)),
    {
        self.rooms.push(o);
    }

    pub fn push_door(&mut self, o: MapObject)
        ensures
            final(self).doors_spec() == old(self).doors_spec().push(o),
            final(self).rooms_spec() == old(self).rooms_spec(),
            final(self).corridors_spec() == old(self).corridors_spec(),
            final(self).floors_spec() == old(self).floors_spec(),
            final(self).walls_spec() == old(self).walls_spec(),
            final(self).cells() == old(self).cells(),
            final(self).same_shape(old(self)),
    {
        self.doors.push(o);
    }

    pub fn push_corridor(&mut self, o: MapObject)
        ensures
            final(self).corridors_spec() == old(self).corridors_spec().push(o),
            final(self).rooms_spec() == old(self).rooms_spec(),
            final(self).doors_spec() == old(self).doors_spec(),
            final(self).floors_spec() == old(self).floors_spec(),
            final(self).walls_spec() == old(self).walls_spec(),
            final(self).cells() == old(self).cells(),
            final(self).same_shape(old(self)),
    {
        self.corridors.push(o);
    }

    pub fn push_floor(&mut self, o: MapObject)
        ensures
            final(self).floors_spec() == old(self).floors_spec().push(o),
            final(self).rooms_spec() == old(self).rooms_spec(),
            final(self).doors_spec() == old(self).doors_spec(),
            final(self).corridors_spec() == old(self).corridors_spec(),
            final(self).walls_spec() == old(self).walls_spec(),
            final(self).cells() == old(self).cells(),
            final(self).same_shape(old(self)),
    {
        self.floors.push(o);
    }

    pub fn push_wall(&mut self, o: MapObject)
        ensures
            final(self).walls_spec() == old(self).walls_spec().push(o),
            final(self).rooms_spec() == old(self).rooms_spec(),
            final(self).doors_spec() == old(self).doors_spec(),
            final(self).corridors_spec() == old(self).corridors_spec(),
            final(self).floors_spec() == old(self).floors_spec(),
            final(self).cells() == old(self).cells(),
            final(self).same_shape(old(self)),
    {
        self.walls.push(o);
    }

    /// Associates an entity with the `i`-th recorded floor block, which has none yet.
    pub fn set_floor_entity(&mut self, i: usize, entity: EntityHandle)
        requires
            i < old(self).floors_spec().len(),
            old(self).floors_spec()[i as int].entity_spec() is None,
        ensures
            final(self).floors_spec().len() == old(self).floors_spec().len(),
            forall|k: int|
                0 <= k < old(self).floors_spec().len() && k != i ==> #[trigger] final(self).floors_spec()[k]
                    == old(self).floors_spec()[k],
            final(self).floors_spec()[i as int].entity_spec() == Some(entity),
            final(self).floors_spec()[i as int].start_spec() == old(self).floors_spec()[i as int].start_spec(),
            final(self).floors_spec()[i as int].end_spec() == old(self).floors_spec()[i as int].end_spec(),
            final(self).rooms_spec() == old(self).rooms_spec(),
            final(self).doors_spec() == old(self).doors_spec(),
            final(self).corridors_spec() == old(self).corridors_spec(),
            final(self).walls_spec() == old(self).walls_spec(),
            final(self).cells() == old(self).cells(),
            final(self).same_shape(old(self)),
    {
        let mut o = self.floors.remove(i);
        o.set_entity(entity);
        self.floors.insert(i, o);
        proof {
            assert forall|k: int|
                0 <= k < old(self).floors_spec().len() && k != i implies #[trigger] self.floors_spec()[k]
                    == old(self).floors_spec()[k] by {}
        }
    }

    /// Associates an entity with the `i`-th recorded wall block, which has none yet.
    pub fn set_wall_entity(&mut self, i: usize, entity: EntityHandle)
        requires
            i < old(self).walls_spec().len(),
            old(self).walls_spec()[i as int].entity_spec() is None,
        ensures
            final(self).walls_spec().len() == old(self).walls_spec().len(),
            forall|k: int|
                0 <= k < old(self).walls_spec().len() && k != i ==> #[trigger] final(self).walls_spec()[k]
                    == old(self).walls_spec()[k],
            final(self).walls_spec()[i as int].entity_spec() == Some(entity),
            final(self).walls_spec()[i as int].start_spec() == old(self).walls_spec()[i as int].start_spec(),
            final(self).walls_spec()[i as int].end_spec() == old(self).walls_spec()[i as int].end_spec(),
            final(self).rooms_spec() == old(self).rooms_spec(),
            final(self).doors_spec() == old(self).doors_spec(),
            final(self).corridors_spec() == old(self).corridors_spec(),
            final(self).floors_spec() == old(self).floors_spec(),
            final(self).cells() == old(self).cells(),
            final(self).same_shape(old(self)),
    {
        let mut o = self.walls.remove(i);
        o.set_entity(entity);
        self.walls.insert(i, o);
        proof {
            assert forall|k: int|
                0 <= k < old(self).walls_spec().len() && k != i implies #[trigger] self.walls_spec()[k]
                    == old(self).walls_spec()[k] by {}
        }
    }

    pub fn rooms(&self) -> (r: &[MapObject])
        ensures
            r@ == self.rooms_spec(),
    {
        self.rooms.as_slice()
    }

    pub fn doors(&self) -> (r: &[MapObject])
        ensures
            r@ == self.doors_spec(),
    {
        self.doors.as_slice()
    }

    pub fn corridors(&self) -> (r: &[MapObject])
        ensures
            r@ == self.corridors_spec(),
    {
        self.corridors.as_slice()
    }

    pub fn floors(&self) -> (r: &[MapObject])
        ensures
            r@ == self.floors_spec(),
    {
        self.floors.as_slice()
    }

    pub fn walls(&self) -> (r: &[MapObject])
        ensures
            r@ == self.walls_spec(),
    {
        self.walls.as_slice()
    }
}

} // verus!

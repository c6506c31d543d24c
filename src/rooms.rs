use vstd::prelude::*;
use crate::grid::{GridMap, MapObject, TileState, MAX_SIDE};
use crate::rng::random_below;
use crate::config::{MapConfig, Room, PER_MILLE};

verus! {

/// `(a, b)` lies in the block `o`.
pub open spec fn in_block(o: MapObject, a: int, b: int) -> bool {
    o.start_spec().0 <= a <= o.end_spec().0 && o.start_spec().1 <= b <= o.end_spec().1
}

/// The block `o` holds cells and `(a, b)` lies in it grown by one cell on every side.
pub open spec fn near_block(o: MapObject, a: int, b: int) -> bool {
    o.start_spec().0 <= o.end_spec().0 && o.start_spec().1 <= o.end_spec().1 && o.start_spec().0 - 1 <= a <= o.end_spec().0 + 1 && o.start_spec().1 - 1 <= b <= o.end_spec().1 + 1
}

/// `(a, b)` lies in the rectangle `[x0, x1] x [y0, y1]`.
pub open spec fn in_rect(a: int, b: int, x0: int, x1: int, y0: int, y1: int) -> bool {
    x0 <= a <= x1 && y0 <= b <= y1
}

impl GridMap {
    /// Every cell of `[x0, x1] x [y0, y1]` is a wall.
    pub open spec fn all_wall(&self, x0: int, x1: int, y0: int, y1: int) -> bool {
        forall|a: int, b: int|
            #![trigger self.tile(a, b)]
            in_rect(a, b, x0, x1, y0, y1) ==> self.tile(a, b) is Wall
    }

    /// Every change from `o` turns a wall into a room cell.
    pub open spec fn only_rooms_from(&self, o: &GridMap) -> bool {
        forall|x: int, y: int|
            #![trigger self.tile(x, y)]
            self.in_grid(x, y) ==> self.tile(x, y) == o.tile(x, y) || (o.tile(x, y) is Wall
                && self.tile(x, y) is Room)
    }

    fn area_is_wall(&self, x0: usize, x1: usize, y0: usize, y1: usize) -> (r: bool)
        requires
            self.wf(),
            x0 <= x1 < self.width_spec(),
            y0 <= y1 < self.height_spec(),
        ensures
            r == self.all_wall(x0 as int, x1 as int, y0 as int, y1 as int),
    {
        let mut b = y0;
        while b <= y1
            invariant
                self.wf(),
                x0 <= x1 < self.width_spec(),
                y0 <= b <= y1 + 1,
                y1 < self.height_spec(),
                self.all_wall(x0 as int, x1 as int, y0 as int, b - 1),
            decreases y1 + 1 - b,
        {
            let mut a = x0;
            while a <= x1
                invariant
                    self.wf(),
                    x0 <= a <= x1 + 1,
                    x1 < self.width_spec(),
                    y0 <= b <= y1,
                    y1 < self.height_spec(),
                    self.all_wall(x0 as int, x1 as int, y0 as int, b - 1),
                    forall|i: int| x0 <= i < a ==> #[trigger] self.tile(i, b as int) is Wall,
                decreases x1 + 1 - a,
            {
                if !self.tile_at(a, b).is_wall() {
                    assert(in_rect(a as int, b as int, x0 as int, x1 as int, y0 as int, y1 as int));
                    return false;
                }
                a += 1;
            }
            assert forall|i: int, j: int|
                #![trigger self.tile(i, j)]
                in_rect(i, j, x0 as int, x1 as int, y0 as int, b as int) implies self.tile(i, j) is Wall by {
                if j < b {
                    assert(in_rect(i, j, x0 as int, x1 as int, y0 as int, b - 1));
                }
            }
            b += 1;
        }
        true
    }

    /// Places a room of `sx x sy` cells with its top-left cell at `(room_x, room_y)`, provided
    /// it and a border of one cell around it are all walls; its cells become `Room(room_id)`
    /// and the room is recorded.
    pub fn try_stamp_room(&mut self, room_x: usize, room_y: usize, sx: usize, sy: usize, room_id: u32) -> (r:
        Result<(), ()>)
        requires
            old(self).wf(),
            1 <= room_x,
            1 <= room_y,
            1 <= sx,
            1 <= sy,
            room_x + sx < old(self).width_spec(),
            room_y + sy < old(self).height_spec(),
        ensures
            final(self).wf(),
            final(self).same_shape(old(self)),
            r is Ok == old(self).all_wall(
                room_x - 1,
                (room_x + sx) as int,
                room_y - 1,
                (room_y + sy) as int,
            ),
            r is Err ==> *final(self) == *old(self),
            r is Ok ==> {
                &&& forall|a: int, b: int|
                    #![trigger final(self).tile(a, b)]
                    final(self).in_grid(a, b) ==> final(self).tile(a, b) == if in_rect(
                        a,
                        b,
                        room_x as int,
                        room_x + sx - 1,
                        room_y as int,
                        room_y + sy - 1,
                    ) {
                        TileState::Room(room_id)
                    } else {
                        old(self).tile(a, b)
                    }
                &&& final(self).open_count() > old(self).open_count()
                &&& final(self).rooms_spec().len() == old(self).rooms_spec().len() + 1
                &&& final(self).rooms_spec().last().start_spec() == (room_x, room_y)
                &&& final(self).rooms_spec().last().end_spec() == (
                    (room_x + sx - 1) as usize,
                    (room_y + sy - 1) as usize,
                )
                &&& final(self).rooms_spec().drop_last() == old(self).rooms_spec()
                &&& final(self).doors_spec() == old(self).doors_spec()
                &&& final(self).corridors_spec() == old(self).corridors_spec()
                &&& final(self).floors_spec() == old(self).floors_spec()
                &&& final(self).walls_spec() == old(self).walls_spec()
            },
    {
        if !self.area_is_wall(room_x - 1, room_x + sx, room_y - 1, room_y + sy) {
            return Err(());
        }
        let ghost orig = *self;
        let x1 = room_x + sx - 1;
        let y1 = room_y + sy - 1;
        let mut b = room_y;
        proof {
            self.lemma_open_count_bound();
        }
        while b <= y1
            invariant
                self.wf(),
                self.same_shape(&orig),
                self.same_records(&orig),
                orig.wf(),
                orig.all_wall(room_x - 1, (room_x + sx) as int, room_y - 1, (room_y + sy) as int),
                x1 == room_x + sx - 1,
                y1 == room_y + sy - 1,
                x1 < self.width_spec(),
                y1 < self.height_spec(),
                room_y <= b <= y1 + 1,
                1 <= room_x,
                1 <= sx,
                1 <= sy,
                self.open_count() >= orig.open_count(),
                forall|a: int, c: int|
                    #![trigger self.tile(a, c)]
                    self.in_grid(a, c) ==> self.tile(a, c) == if in_rect(
                        a,
                        c,
                        room_x as int,
                        x1 as int,
                        room_y as int,
                        b - 1,
                    ) {
                        TileState::Room(room_id)
                    } else {
                        orig.tile(a, c)
                    },
                b > room_y ==> self.open_count() > orig.open_count(),
                b == room_y ==> self.open_count() == orig.open_count(),
            decreases y1 + 1 - b,
        {
            let mut a = room_x;
            while a <= x1
                invariant
                    self.wf(),
                    self.same_shape(&orig),
                    self.same_records(&orig),
                    orig.all_wall(room_x - 1, (room_x + sx) as int, room_y - 1, (room_y + sy) as int),
                    x1 == room_x + sx - 1,
                    y1 == room_y + sy - 1,
                    x1 < self.width_spec(),
                    y1 < self.height_spec(),
                    room_y <= b <= y1,
                    room_x <= a <= x1 + 1,
                    1 <= room_x,
                    1 <= sx,
                    1 <= sy,
                    self.open_count() >= orig.open_count(),
                    forall|i: int, c: int|
                        #![trigger self.tile(i, c)]
                        self.in_grid(i, c) ==> self.tile(i, c) == if in_rect(
                            i,
                            c,
                            room_x as int,
                            x1 as int,
                            room_y as int,
                            b - 1,
                        ) || (c == b && room_x <= i < a) {
                            TileState::Room(room_id)
                        } else {
                            orig.tile(i, c)
                        },
                    (b > room_y || a > room_x) ==> self.open_count() > orig.open_count(),
                    (b == room_y && a == room_x) ==> self.open_count() == orig.open_count(),
                decreases x1 + 1 - a,
            {
                let ghost before = *self;
                proof {
                    assert(in_rect(a as int, b as int, room_x - 1, (room_x + sx) as int, room_y - 1, (room_y + sy) as int));
                    assert(before.tile(a as int, b as int) is Wall);
                }
                self.set_tile(a, b, TileState::Room(room_id));
                proof {
                    assert forall|i: int, c: int|
                        #![trigger self.tile(i, c)]
                        self.in_grid(i, c) implies self.tile(i, c) == if in_rect(
                            i,
                            c,
                            room_x as int,
                            x1 as int,
                            room_y as int,
                            b - 1,
                        ) || (c == b && room_x <= i < a + 1) {
                            TileState::Room(room_id)
                        } else {
                            orig.tile(i, c)
                        } by {
                        if !(i == a && c == b) {
                            assert(self.tile(i, c) == before.tile(i, c));
                        }
                    }
                }
                a += 1;
            }
            proof {
                assert forall|i: int, c: int|
                    #![trigger self.tile(i, c)]
                    self.in_grid(i, c) implies self.tile(i, c) == if in_rect(
                        i,
                        c,
                        room_x as int,
                        x1 as int,
                        room_y as int,
                        b as int,
                    ) {
                        TileState::Room(room_id)
                    } else {
                        orig.tile(i, c)
                    } by {}
            }
            b += 1;
        }
        let ghost stamped = *self;
        self.push_room(MapObject::new((room_x, room_y), (x1, y1)));
        proof {
            assert(self.rooms_spec().drop_last() =~= orig.rooms_spec());
            assert forall|a: int, c: int|
                #![trigger self.tile(a, c)]
                self.in_grid(a, c) implies self.tile(a, c) == if in_rect(
                    a,
                    c,
                    room_x as int,
                    room_x + sx - 1,
                    room_y as int,
                    room_y + sy - 1,
                ) {
                    TileState::Room(room_id)
                } else {
                    orig.tile(a, c)
                } by {
                assert(self.tile(a, c) == stamped.tile(a, c));
            }
        }
        Ok(())
    }

    /// Every cell of every recorded room is a room cell.
    pub open spec fn rooms_stamped(&self) -> bool {
        forall|k: int, a: int, b: int|
            #![trigger self.rooms_spec()[k], self.tile(a, b)]
            0 <= k < self.rooms_spec().len() && in_rect(
                a,
                b,
                self.rooms_spec()[k].start_spec().0 as int,
                self.rooms_spec()[k].end_spec().0 as int,
                self.rooms_spec()[k].start_spec().1 as int,
                self.rooms_spec()[k].end_spec().1 as int,
            ) ==> self.in_grid(a, b) && self.tile(a, b) is Room
    }

    /// Recorded rooms stay stamped through changes that leave room cells alone.
    pub proof fn lemma_rooms_stay_stamped(&self, o: &GridMap)
        requires
            o.rooms_stamped(),
            self.rooms_spec() == o.rooms_spec(),
            self.same_shape(o),
            forall|x: int, y: int|
                #![trigger self.tile(x, y)]
                o.in_grid(x, y) && o.tile(x, y) is Room ==> self.tile(x, y) == o.tile(x, y),
        ensures
            self.rooms_stamped(),
    {
        assert forall|k: int, a: int, b: int|
            #![trigger self.rooms_spec()[k], self.tile(a, b)]
            0 <= k < self.rooms_spec().len() && in_rect(
                a,
                b,
                self.rooms_spec()[k].start_spec().0 as int,
                self.rooms_spec()[k].end_spec().0 as int,
                self.rooms_spec()[k].start_spec().1 as int,
                self.rooms_spec()[k].end_spec().1 as int,
            ) implies self.in_grid(a, b) && self.tile(a, b) is Room by {
            assert(o.rooms_spec()[k] == self.rooms_spec()[k]);
            assert(o.in_grid(a, b) && o.tile(a, b) is Room);
        }
    }

    /// The grid is all walls and every bucket that is ever attempted fits in it with its border.
    pub open spec fn fits_every_bucket(&self, config: &MapConfig) -> bool {
        &&& self.all_wall(0, self.width_spec() - 1, 0, self.height_spec() - 1)
        &&& forall|j: int|
            0 <= j < config.room_sizes@.len() && (#[trigger] config.room_sizes@[j]).frequency > 0 ==> config.room_sizes@[j].max_size.0
                + 3 <= self.width_spec() && config.room_sizes@[j].max_size.1 + 3 <= self.height_spec()
    }

    /// Room `k`'s cells are exactly the cells of the `k`-th recorded room's rectangle.
    pub open spec fn rooms_exact(&self) -> bool {
        &&& forall|k: int, a: int, b: int|
            0 <= k < self.rooms_spec().len() && #[trigger] in_block(self.rooms_spec()[k], a, b) ==> self.in_grid(a, b)
                && self.tile(a, b) == TileState::Room(k as u32)
        &&& forall|x: int, y: int|
            #![trigger self.tile(x, y)]
            self.in_grid(x, y) && self.tile(x, y) is Room ==> (self.tile(x, y)->Room_0 as int) < self.rooms_spec().len()
                && in_block(self.rooms_spec()[self.tile(x, y)->Room_0 as int], x, y)
    }

    /// Exact rooms stay exact through changes that neither touch nor make room cells.
    pub proof fn lemma_rooms_exact_kept(&self, o: &GridMap)
        requires
            o.rooms_exact(),
            self.rooms_spec() == o.rooms_spec(),
            self.same_shape(o),
            forall|x: int, y: int|
                #![trigger self.tile(x, y)]
                o.in_grid(x, y) && (o.tile(x, y) is Room || self.tile(x, y) is Room) ==> self.tile(x, y) == o.tile(x, y),
        ensures
            self.rooms_exact(),
    {
        assert forall|k: int, a: int, b: int|
            0 <= k < self.rooms_spec().len() && #[trigger] in_block(self.rooms_spec()[k], a, b) implies self.in_grid(a, b)
                && self.tile(a, b) == TileState::Room(k as u32) by {
            assert(in_block(o.rooms_spec()[k], a, b));
        }
        assert forall|x: int, y: int|
            #![trigger self.tile(x, y)]
            self.in_grid(x, y) && self.tile(x, y) is Room implies (self.tile(x, y)->Room_0 as int) < self.rooms_spec().len()
                && in_block(self.rooms_spec()[self.tile(x, y)->Room_0 as int], x, y) by {
            assert(o.tile(x, y) == self.tile(x, y));
        }
    }

    proof fn lemma_new_room_exact(&self, before: &GridMap, rx: int, ry: int, sx: int, sy: int, room_id: u32)
        requires
            before.wf(),
            before.rooms_exact(),
            room_id as int == before.rooms_spec().len(),
            self.same_shape(before),
            self.stamped_room(before, rx, ry, sx, sy, room_id),
        ensures
            self.rooms_exact(),
    {
        let n = before.rooms_spec().len() as int;
        let rs = self.rooms_spec();
        assert(rs[n] == rs.last());
        assert forall|k: int, a: int, b: int|
            0 <= k < rs.len() && #[trigger] in_block(rs[k], a, b) implies self.in_grid(a, b) && self.tile(a, b)
                == TileState::Room(k as u32) by {
            if k < n {
                assert(rs[k] == rs.drop_last()[k]);
                assert(before.rooms_spec()[k] == rs[k]);
                assert(in_block(before.rooms_spec()[k], a, b));
                assert(before.in_grid(a, b));
                assert(before.tile(a, b) == TileState::Room(k as u32));
                if in_rect(a, b, rx, rx + sx - 1, ry, ry + sy - 1) {
                    assert(in_rect(a, b, rx - 1, rx + sx, ry - 1, ry + sy));
                }
            } else {
                assert(k == n);
                assert(rs[k].start_spec() == (rx as usize, ry as usize));
                assert(rs[k].end_spec() == ((rx + sx - 1) as usize, (ry + sy - 1) as usize));
                assert(rx + sx < before.width_spec() && before.width_spec() <= MAX_SIDE);
                assert((rx as usize) as int == rx && ((rx + sx - 1) as usize) as int == rx + sx - 1);
                assert((ry as usize) as int == ry && ((ry + sy - 1) as usize) as int == ry + sy - 1);
                assert(in_rect(a, b, rx, rx + sx - 1, ry, ry + sy - 1));
                assert(self.in_grid(a, b));
                assert(k as u32 == room_id);
            }
        }
        assert forall|x: int, y: int|
            #![trigger self.tile(x, y)]
            self.in_grid(x, y) && self.tile(x, y) is Room implies (self.tile(x, y)->Room_0 as int) < rs.len()
                && in_block(rs[self.tile(x, y)->Room_0 as int], x, y) by {
            if in_rect(x, y, rx, rx + sx - 1, ry, ry + sy - 1) {
            } else {
                assert(self.tile(x, y) == before.tile(x, y));
                assert(before.tile(x, y) is Room);
                let k = before.tile(x, y)->Room_0 as int;
                assert(k < n);
                assert(rs[k] == rs.drop_last()[k]);
            }
        }
    }

    /// No recorded room touches another, even at a corner: a wall cell lies between any two.
    pub open spec fn rooms_apart(&self) -> bool {
        forall|j: int, k: int, a: int, b: int|
            0 <= j < self.rooms_spec().len() && 0 <= k < self.rooms_spec().len() && j != k && #[trigger] in_block(
                self.rooms_spec()[j],
                a,
                b,
            ) ==> !#[trigger] near_block(self.rooms_spec()[k], a, b)
    }

    proof fn lemma_new_room_apart(&self, before: &GridMap, rx: int, ry: int, sx: int, sy: int, room_id: u32)
        requires
            before.wf(),
            before.rooms_stamped(),
            before.rooms_apart(),
            self.stamped_room(before, rx, ry, sx, sy, room_id),
        ensures
            self.rooms_apart(),
    {
        let n = before.rooms_spec().len() as int;
        let rs = self.rooms_spec();
        assert forall|j: int, k: int, a: int, b: int|
            0 <= j < rs.len() && 0 <= k < rs.len() && j != k && #[trigger] in_block(rs[j], a, b) implies !#[trigger] near_block(
                rs[k],
                a,
                b,
            ) by {
            if j < n && k < n {
                assert(rs[j] == rs.drop_last()[j]);
                assert(rs[k] == rs.drop_last()[k]);
            } else if j == n {
                assert(rs[k] == rs.drop_last()[k]);
                let o = rs[k];
                if near_block(o, a, b) {
                    let ca = if a < o.start_spec().0 { o.start_spec().0 as int } else if a > o.end_spec().0 { o.end_spec().0 as int } else { a };
                    let cb = if b < o.start_spec().1 { o.start_spec().1 as int } else if b > o.end_spec().1 { o.end_spec().1 as int } else { b };
                    assert(in_block(o, ca, cb));
                    assert(before.rooms_spec()[k] == o);
                    assert(in_rect(ca, cb, o.start_spec().0 as int, o.end_spec().0 as int, o.start_spec().1 as int, o.end_spec().1 as int));
                    assert(before.tile(ca, cb) is Room);
                    assert(in_rect(ca, cb, rx - 1, rx + sx, ry - 1, ry + sy));
                }
            } else {
                assert(rs[j] == rs.drop_last()[j]);
                let o = rs[j];
                if near_block(rs[k], a, b) {
                    assert(before.rooms_spec()[j] == o);
                    assert(in_rect(a, b, o.start_spec().0 as int, o.end_spec().0 as int, o.start_spec().1 as int, o.end_spec().1 as int));
                    assert(before.tile(a, b) is Room);
                    assert(in_rect(a, b, rx - 1, rx + sx, ry - 1, ry + sy));
                }
            }
        }
    }

    /// A placement of a room `room_id` on `o`: some rectangle of wall cells became room cells and
    /// the room was recorded; nothing else changed.
    pub open spec fn placed_room_on(&self, o: &GridMap, room_id: u32) -> bool {
        &&& forall|x: int, y: int|
            #![trigger self.tile(x, y)]
            self.in_grid(x, y) ==> self.tile(x, y) == o.tile(x, y) || (o.tile(x, y) is Wall
                && self.tile(x, y) == TileState::Room(room_id))
        &&& self.open_count() > o.open_count()
        &&& self.rooms_spec().len() == o.rooms_spec().len() + 1
        &&& self.rooms_spec().drop_last() == o.rooms_spec()
        &&& forall|a: int, b: int|
            #![trigger self.tile(a, b)]
            in_rect(
                a,
                b,
                self.rooms_spec().last().start_spec().0 as int,
                self.rooms_spec().last().end_spec().0 as int,
                self.rooms_spec().last().start_spec().1 as int,
                self.rooms_spec().last().end_spec().1 as int,
            ) ==> self.in_grid(a, b) && self.tile(a, b) == TileState::Room(room_id)
        &&& self.doors_spec() == o.doors_spec()
        &&& self.corridors_spec() == o.corridors_spec()
        &&& self.floors_spec() == o.floors_spec()
        &&& self.walls_spec() == o.walls_spec()
    }

    proof fn lemma_new_room_stamped(&self, o: &GridMap, room_id: u32)
        requires
            o.rooms_stamped(),
            self.placed_room_on(o, room_id),
            self.same_shape(o),
        ensures
            self.rooms_stamped(),
    {
        let n = o.rooms_spec().len() as int;
        assert forall|k: int, a: int, b: int|
            #![trigger self.rooms_spec()[k], self.tile(a, b)]
            0 <= k < self.rooms_spec().len() && in_rect(
                a,
                b,
                self.rooms_spec()[k].start_spec().0 as int,
                self.rooms_spec()[k].end_spec().0 as int,
                self.rooms_spec()[k].start_spec().1 as int,
                self.rooms_spec()[k].end_spec().1 as int,
            ) implies self.in_grid(a, b) && self.tile(a, b) is Room by {
            if k < n {
                assert(self.rooms_spec()[k] == self.rooms_spec().drop_last()[k]);
                assert(o.rooms_spec()[k] == self.rooms_spec()[k]);
                assert(o.in_grid(a, b) && o.tile(a, b) is Room);
                assert(self.tile(a, b) == o.tile(a, b) || (o.tile(a, b) is Wall && self.tile(a, b)
                    == TileState::Room(room_id)));
            } else {
                assert(self.rooms_spec()[k] == self.rooms_spec().last());
            }
        }
    }

    /// `self` is `o` with a room `room_id` of `sx x sy` cells placed with its top-left cell at
    /// `(rx, ry)`: the room and its one-cell border were walls of `o`, exactly the room's cells
    /// changed, and the room was recorded.
    pub open spec fn stamped_room(&self, o: &GridMap, rx: int, ry: int, sx: int, sy: int, room_id: u32) -> bool {
        &&& 1 <= rx && 1 <= ry && 1 <= sx && 1 <= sy
        &&& rx + sx < o.width_spec() && ry + sy < o.height_spec()
        &&& o.all_wall(rx - 1, rx + sx, ry - 1, ry + sy)
        &&& forall|a: int, b: int|
            #![trigger self.tile(a, b)]
            self.in_grid(a, b) ==> self.tile(a, b) == if in_rect(a, b, rx, rx + sx - 1, ry, ry + sy - 1) {
                TileState::Room(room_id)
            } else {
                o.tile(a, b)
            }
        &&& self.rooms_spec().len() == o.rooms_spec().len() + 1
        &&& self.rooms_spec().drop_last() == o.rooms_spec()
        &&& self.rooms_spec().last().start_spec() == (rx as usize, ry as usize)
        &&& self.rooms_spec().last().end_spec() == ((rx + sx - 1) as usize, (ry + sy - 1) as usize)
    }

    /// Tries once to place a room of the size bucket `room`: draws a footprint within the
    /// bucket's range and a position that leaves a one-cell border inside the grid, and places
    /// it there if that area and its border are all walls.
    pub fn place_room(&mut self, room: &Room, rng: &mut rand::rngs::StdRng, room_id: u32) -> (r: Result<(), ()>)
        requires
            old(self).wf(),
            room.wf(),
        ensures
            final(self).wf(),
            final(self).same_shape(old(self)),
            r is Err ==> *final(self) == *old(self),
            r is Ok ==> final(self).placed_room_on(old(self), room_id),
            r is Ok ==> exists|rx: int, ry: int, sx: int, sy: int|
                room.min_size.0 <= sx <= room.max_size.0 && room.min_size.1 <= sy <= room.max_size.1
                    && #[trigger] final(self).stamped_room(old(self), rx, ry, sx, sy, room_id),
            room.min_size.0 + 3 > old(self).width_spec() || room.min_size.1 + 3 > old(self).height_spec()
                ==> r is Err,
            old(self).all_wall(0, old(self).width_spec() - 1, 0, old(self).height_spec() - 1)
                && room.max_size.0 + 3 <= old(self).width_spec() && room.max_size.1 + 3
                <= old(self).height_spec() ==> r is Ok,
    {
        let w = self.width() as usize;
        let h = self.height() as usize;
        let sx = random_below(rng, room.min_size.0 as usize, room.max_size.0 as usize + 1);
        let sy = random_below(rng, room.min_size.1 as usize, room.max_size.1 as usize + 1);
        if w < 3 || h < 3 || sx > w - 3 || sy > h - 3 {
            return Err(());
        }
        let room_x = random_below(rng, 1, w - (sx + 1));
        let room_y = random_below(rng, 1, h - (sy + 1));
        let ghost orig = *self;
        proof {
            if orig.all_wall(0, w - 1, 0, h - 1) {
                assert forall|a: int, b: int|
                    #![trigger orig.tile(a, b)]
                    in_rect(a, b, room_x - 1, (room_x + sx) as int, room_y - 1, (room_y + sy) as int) implies orig.tile(
                        a,
                        b,
                    ) is Wall by {
                    assert(in_rect(a, b, 0, w - 1, 0, h - 1));
                }
            }
        }
        let r = self.try_stamp_room(room_x, room_y, sx, sy, room_id);
        proof {
            if r is Ok {
                assert(self.stamped_room(&orig, room_x as int, room_y as int, sx as int, sy as int, room_id));
                assert forall|x: int, y: int|
                    #![trigger self.tile(x, y)]
                    self.in_grid(x, y) implies self.tile(x, y) == orig.tile(x, y) || (orig.tile(x, y) is Wall
                        && self.tile(x, y) == TileState::Room(room_id)) by {
                    if in_rect(x, y, room_x as int, room_x + sx - 1, room_y as int, room_y + sy - 1) {
                        assert(in_rect(x, y, room_x - 1, (room_x + sx) as int, room_y - 1, (room_y + sy) as int));
                    }
                }
                assert forall|a: int, b: int|
                    #![trigger self.tile(a, b)]
                    in_rect(
                        a,
                        b,
                        self.rooms_spec().last().start_spec().0 as int,
                        self.rooms_spec().last().end_spec().0 as int,
                        self.rooms_spec().last().start_spec().1 as int,
                        self.rooms_spec().last().end_spec().1 as int,
                    ) implies self.in_grid(a, b) && self.tile(a, b) == TileState::Room(room_id) by {
                    assert(in_rect(a, b, room_x as int, room_x + sx - 1, room_y as int, room_y + sy - 1));
                }
            }
        }
        r
    }

    /// Places rooms until `room_place_max_iterations` placements have failed. Each round adds
    /// every bucket's frequency to its own running chance; a bucket whose chance exceeds one
    /// spends it on one placement attempt.
    pub fn fill_rooms(&mut self, config: &MapConfig, rng: &mut rand::rngs::StdRng)
        requires
            old(self).wf(),
            config.wf(),
            config.room_place_max_iterations == 0 || exists|j: int|
                0 <= j < config.room_sizes@.len() && #[trigger] config.room_sizes@[j].frequency > 0,
        ensures
            final(self).wf(),
            final(self).same_shape(old(self)),
            final(self).only_rooms_from(old(self)),
            final(self).doors_spec() == old(self).doors_spec(),
            final(self).corridors_spec() == old(self).corridors_spec(),
            final(self).floors_spec() == old(self).floors_spec(),
            final(self).walls_spec() == old(self).walls_spec(),
            old(self).rooms_stamped() ==> final(self).rooms_stamped(),
            old(self).rooms_stamped() && old(self).rooms_apart() ==> final(self).rooms_apart(),
            old(self).rooms_exact() && old(self).rooms_spec().len() == 0 ==> final(self).rooms_exact(),
            config.room_place_max_iterations > 0 && old(self).fits_every_bucket(config)
                ==> final(self).rooms_spec().len() > old(self).rooms_spec().len(),
            forall|x: int, y: int|
                #![trigger final(self).tile(x, y)]
                final(self).in_grid(x, y) && final(self).tile(x, y) != old(self).tile(x, y) ==> 1 <= x
                    < final(self).width_spec() - 1 && 1 <= y < final(self).height_spec() - 1,
    {
        let ghost orig = *self;
        let n = config.room_sizes.len();
        let budget = config.room_place_max_iterations as u64;
        let mut room_id: u32 = 0;
        let mut fail_count: u64 = 0;
        let mut chances: Vec<u32> = Vec::new();
        let mut i: usize = 0;
        while i < n
            invariant
                n == config.room_sizes@.len(),
                i <= n,
                chances@.len() == i,
                forall|k: int| 0 <= k < i ==> #[trigger] chances@[k] == 0,
            decreases n - i,
        {
            chances.push(0);
            i += 1;
        }
        let ghost j: int = if budget == 0 {
            0
        } else {
            choose|j: int| 0 <= j < config.room_sizes@.len() && #[trigger] config.room_sizes@[j].frequency > 0
        };
        proof {
            self.lemma_open_count_bound();
        }
        while fail_count < budget
            invariant
                self.wf(),
                self.same_shape(&orig),
                self.only_rooms_from(&orig),
                self.doors_spec() == orig.doors_spec(),
                self.corridors_spec() == orig.corridors_spec(),
                self.floors_spec() == orig.floors_spec(),
                self.walls_spec() == orig.walls_spec(),
                config.wf(),
                n == config.room_sizes@.len(),
                chances@.len() == n,
                forall|k: int| 0 <= k < n ==> #[trigger] chances@[k] <= PER_MILLE,
                budget == config.room_place_max_iterations,
                budget > 0 ==> 0 <= j < n && config.room_sizes@[j].frequency > 0,
                room_id + orig.open_count() <= self.open_count(),
                self.open_count() <= MAX_SIDE * MAX_SIDE,
                self.rooms_spec().len() >= orig.rooms_spec().len(),
                self.rooms_spec().len() == orig.rooms_spec().len() ==> *self == orig,
                orig.fits_every_bucket(config) && fail_count > 0 ==> self.rooms_spec().len() > orig.rooms_spec().len(),
                orig.rooms_stamped() ==> self.rooms_stamped(),
                orig.rooms_stamped() && orig.rooms_apart() ==> self.rooms_apart(),
                orig.rooms_exact() && orig.rooms_spec().len() == 0 ==> self.rooms_exact() && room_id
                    == self.rooms_spec().len(),
                forall|x: int, y: int|
                    #![trigger self.tile(x, y)]
                    self.in_grid(x, y) && self.tile(x, y) != orig.tile(x, y) ==> 1 <= x < self.width_spec() - 1
                        && 1 <= y < self.height_spec() - 1,
            decreases MAX_SIDE * MAX_SIDE - self.open_count(), if fail_count < budget {
                budget - fail_count
            } else {
                0
            }, PER_MILLE - chances@[j],
        {
            let ghost open0 = self.open_count();
            let ghost fails0 = fail_count;
            let ghost chance0 = chances@[j];
            let mut i: usize = 0;
            while i < n
                invariant
                    self.wf(),
                    self.same_shape(&orig),
                    self.only_rooms_from(&orig),
                    self.doors_spec() == orig.doors_spec(),
                    self.corridors_spec() == orig.corridors_spec(),
                    self.floors_spec() == orig.floors_spec(),
                    self.walls_spec() == orig.walls_spec(),
                    config.wf(),
                    n == config.room_sizes@.len(),
                    chances@.len() == n,
                    forall|k: int| 0 <= k < n ==> #[trigger] chances@[k] <= PER_MILLE,
                    0 <= j < n,
                    config.room_sizes@[j].frequency > 0,
                    i <= n,
                    room_id + orig.open_count() <= self.open_count(),
                    self.open_count() <= MAX_SIDE * MAX_SIDE,
                    self.open_count() >= open0,
                    self.rooms_spec().len() >= orig.rooms_spec().len(),
                    self.rooms_spec().len() == orig.rooms_spec().len() ==> *self == orig,
                    orig.fits_every_bucket(config) && fail_count > 0 ==> self.rooms_spec().len()
                        > orig.rooms_spec().len(),
                    orig.rooms_stamped() ==> self.rooms_stamped(),
                    orig.rooms_stamped() && orig.rooms_apart() ==> self.rooms_apart(),
                    orig.rooms_exact() && orig.rooms_spec().len() == 0 ==> self.rooms_exact() && room_id
                        == self.rooms_spec().len(),
                    forall|x: int, y: int|
                        #![trigger self.tile(x, y)]
                        self.in_grid(x, y) && self.tile(x, y) != orig.tile(x, y) ==> 1 <= x < self.width_spec() - 1
                            && 1 <= y < self.height_spec() - 1,
                orig.rooms_stamped() && orig.rooms_apart() ==> self.rooms_apart(),
                forall|x: int, y: int|
                    #![trigger self.tile(x, y)]
                    self.in_grid(x, y) && self.tile(x, y) != orig.tile(x, y) ==> 1 <= x < self.width_spec() - 1
                        && 1 <= y < self.height_spec() - 1,
                    fail_count >= fails0,
                    fails0 < budget,
                    self.open_count() == open0 && fail_count == fails0 ==> if i > j {
                        chances@[j] == chance0 + config.room_sizes@[j].frequency
                    } else {
                        chances@[j] == chance0
                    },
                    chance0 <= PER_MILLE,
                decreases n - i,
            {
                let room = &config.room_sizes[i];
                let c = chances[i] + room.frequency;
                if c > PER_MILLE {
                    chances.set(i, c - PER_MILLE);
                    let ghost before = *self;
                    match self.place_room(room, rng, room_id) {
                        Ok(_) => {
                            proof {
                                self.lemma_open_count_bound();
                                assert forall|x: int, y: int|
                                    #![trigger self.tile(x, y)]
                                    self.in_grid(x, y) implies self.tile(x, y) == orig.tile(x, y) || (orig.tile(
                                        x,
                                        y,
                                    ) is Wall && self.tile(x, y) is Room) by {
                                    assert(self.tile(x, y) == before.tile(x, y) || (before.tile(x, y) is Wall
                                        && self.tile(x, y) == TileState::Room(room_id)));
                                }
                                if orig.rooms_stamped() {
                                    self.lemma_new_room_stamped(&before, room_id);
                                }
                                let (rx, ry, sx, sy) = choose|rx: int, ry: int, sx: int, sy: int|
                                    room.min_size.0 <= sx <= room.max_size.0 && room.min_size.1 <= sy
                                        <= room.max_size.1 && #[trigger] self.stamped_room(&before, rx, ry, sx, sy, room_id);
                                if orig.rooms_stamped() && orig.rooms_apart() {
                                    self.lemma_new_room_apart(&before, rx, ry, sx, sy, room_id);
                                }
                                if orig.rooms_exact() && orig.rooms_spec().len() == 0 {
                                    self.lemma_new_room_exact(&before, rx, ry, sx, sy, room_id);
                                }
                                assert forall|x: int, y: int|
                                    #![trigger self.tile(x, y)]
                                    self.in_grid(x, y) && self.tile(x, y) != orig.tile(x, y) implies 1 <= x
                                        < self.width_spec() - 1 && 1 <= y < self.height_spec() - 1 by {
                                    if self.tile(x, y) == before.tile(x, y) {
                                    } else {
                                        assert(in_rect(x, y, rx, rx + sx - 1, ry, ry + sy - 1));
                                    }
                                }
                            }
                            room_id += 1;
                        },
                        Err(_) => {
                            proof {
                                if orig.fits_every_bucket(config) && self.rooms_spec().len() == orig.rooms_spec().len() {
                                    assert(room.frequency > 0);
                                    assert(config.room_sizes@[i as int] == *room);
                                    assert(false);
                                }
                            }
                            if fail_count < u64::MAX {
                                fail_count += 1;
                            }
                        },
                    }
                } else {
                    chances.set(i, c);
                }
                i += 1;
            }
        }
    }
}

} // verus!

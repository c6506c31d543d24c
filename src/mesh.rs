use vstd::prelude::*;
use crate::grid::{GridMap, FlagGrid, MapObject, flag_cells, MAX_SIDE};

verus! {

/// `(a, b)` lies in the block `o`.
pub open spec fn in_block(o: MapObject, a: int, b: int) -> bool {
    &&& o.start_spec().0 <= a <= o.end_spec().0
    &&& o.start_spec().1 <= b <= o.end_spec().1
}

/// `(a, b)` comes before `(x, y)` in a scan by rows.
pub open spec fn scanned_before(a: int, b: int, x: int, y: int) -> bool {
    b < y || (b == y && a < x)
}

/// `(a, b)` lies in one of the first `k` blocks.
pub open spec fn covered_before(blocks: Seq<MapObject>, k: int, a: int, b: int) -> bool {
    exists|j: int| 0 <= j < k && #[trigger] in_block(blocks[j], a, b)
}

pub open spec fn flag(vis: FlagGrid, a: int, b: int) -> bool {
    flag_cells(vis)[a][b]
}

impl GridMap {
    /// Block `o` is non-empty, lies on the grid and holds walls only.
    pub open spec fn wall_block(&self, o: MapObject) -> bool {
        &&& o.start_spec().0 <= o.end_spec().0
        &&& o.start_spec().1 <= o.end_spec().1
        &&& self.in_grid(o.end_spec().0 as int, o.end_spec().1 as int)
        &&& forall|a: int, b: int|
            #![trigger self.tile(a, b)]
            in_block(o, a, b) ==> self.tile(a, b) is Wall
    }

    /// The cell lies in one of `blocks`.
    pub open spec fn covered(blocks: Seq<MapObject>, a: int, b: int) -> bool {
        exists|k: int| 0 <= k < blocks.len() && #[trigger] in_block(blocks[k], a, b)
    }

    /// `blocks` are wall blocks, no two of which share a cell, and every wall cell lies in one
    /// of them.
    pub open spec fn wall_partition(&self, blocks: Seq<MapObject>) -> bool {
        &&& forall|k: int| 0 <= k < blocks.len() ==> self.wall_block(#[trigger] blocks[k])
        &&& forall|k1: int, k2: int, a: int, b: int|
            0 <= k1 < blocks.len() && 0 <= k2 < blocks.len() && k1 != k2 && #[trigger] in_block(
                blocks[k1],
                a,
                b,
            ) ==> !#[trigger] in_block(blocks[k2], a, b)
        &&& forall|a: int, b: int|
            #![trigger self.tile(a, b)]
            self.in_grid(a, b) && self.tile(a, b) is Wall ==> GridMap::covered(blocks, a, b)
    }

    /// Block `k` of `blocks` could not grow when it was made: the cell right of its first row,
    /// and some cell of the row below it, is off the grid, open, or in an earlier block.
    pub open spec fn greedy_block(&self, blocks: Seq<MapObject>, k: int) -> bool {
        let o = blocks[k];
        let (x0, y0) = (o.start_spec().0 as int, o.start_spec().1 as int);
        let (x1, y1) = (o.end_spec().0 as int, o.end_spec().1 as int);
        &&& (!self.in_grid(x1 + 1, y0) || !(self.tile(x1 + 1, y0) is Wall) || covered_before(blocks, k, x1 + 1, y0))
        &&& (y1 + 1 >= self.height_spec() || exists|a: int|
            x0 <= a <= x1 && (!(#[trigger] self.tile(a, y1 + 1) is Wall) || covered_before(blocks, k, a, y1 + 1)))
    }

    /// The blocks come in the order of their first cells by rows, and none could grow when made.
    pub open spec fn greedy_sweep(&self, blocks: Seq<MapObject>) -> bool {
        &&& forall|k: int| 0 <= k < blocks.len() ==> #[trigger] self.greedy_block(blocks, k)
        &&& forall|k1: int, k2: int|
            0 <= k1 < k2 < blocks.len() ==> scanned_before(
                (#[trigger] blocks[k1]).start_spec().0 as int,
                blocks[k1].start_spec().1 as int,
                (#[trigger] blocks[k2]).start_spec().0 as int,
                blocks[k2].start_spec().1 as int,
            )
    }

    /// What holds of the greedy sweep when it reaches `(x, y)`, with `blocks` emitted so far.
    pub open spec fn sweep_state(&self, vis: FlagGrid, blocks: Seq<MapObject>, x: int, y: int) -> bool {
        &&& flag_cells(vis).len() == self.width_spec()
        &&& forall|a: int| 0 <= a < self.width_spec() ==> #[trigger] flag_cells(vis)[a].len() == self.height_spec()
        &&& forall|k: int| 0 <= k < blocks.len() ==> self.wall_block(#[trigger] blocks[k])
        &&& forall|k1: int, k2: int, a: int, b: int|
            0 <= k1 < blocks.len() && 0 <= k2 < blocks.len() && k1 != k2 && #[trigger] in_block(
                blocks[k1],
                a,
                b,
            ) ==> !#[trigger] in_block(blocks[k2], a, b)
        &&& forall|a: int, b: int|
            #![trigger flag(vis, a, b)]
            self.in_grid(a, b) && flag(vis, a, b) ==> (scanned_before(a, b, x, y) && !(self.tile(a, b) is Wall))
                || GridMap::covered(blocks, a, b)
        &&& forall|k: int, a: int, b: int|
            0 <= k < blocks.len() && #[trigger] in_block(blocks[k], a, b) ==> flag(vis, a, b)
        &&& forall|a: int, b: int|
            #![trigger flag(vis, a, b)]
            self.in_grid(a, b) && scanned_before(a, b, x, y) ==> flag(vis, a, b)
        &&& self.greedy_sweep(blocks)
        &&& forall|k: int|
            0 <= k < blocks.len() ==> scanned_before(
                (#[trigger] blocks[k]).start_spec().0 as int,
                blocks[k].start_spec().1 as int,
                x,
                y,
            )
    }

    /// The flags have the grid's shape.
    pub open spec fn flags_fit(&self, vis: FlagGrid) -> bool {
        &&& flag_cells(vis).len() == self.width_spec()
        &&& forall|a: int| 0 <= a < self.width_spec() ==> #[trigger] flag_cells(vis)[a].len() == self.height_spec()
    }

    /// Every cell of `[x0, x1] x [y0, y1]` is an unvisited wall.
    pub open spec fn fresh_walls(&self, vis: FlagGrid, x0: int, x1: int, y0: int, y1: int) -> bool {
        forall|a: int, b: int|
            #![trigger flag(vis, a, b)]
            x0 <= a <= x1 && y0 <= b <= y1 ==> !flag(vis, a, b) && self.tile(a, b) is Wall
    }

    /// How far right of `(x, y)` the unvisited walls run.
    fn extend_x(&self, vis: &FlagGrid, x: usize, y: usize) -> (r: usize)
        requires
            self.wf(),
            self.flags_fit(*vis),
            self.in_grid(x as int, y as int),
            self.fresh_walls(*vis, x as int, x as int, y as int, y as int),
        ensures
            x <= r < self.width_spec(),
            self.fresh_walls(*vis, x as int, r as int, y as int, y as int),
            r + 1 == self.width_spec() || flag(*vis, r + 1, y as int) || !(self.tile(r + 1, y as int) is Wall),
    {
        let w = self.width() as usize;
        let mut x_end = x;
        let mut go = true;
        while go && x_end + 1 < w
            invariant
                self.wf(),
                self.flags_fit(*vis),
                w == self.width_spec(),
                self.in_grid(x as int, y as int),
                x <= x_end < w,
                self.fresh_walls(*vis, x as int, x_end as int, y as int, y as int),
                !go ==> flag(*vis, x_end + 1, y as int) || !(self.tile(x_end + 1, y as int) is Wall),
            decreases w - x_end + if go { 1int } else { 0int },
        {
            let x2 = x_end + 1;
            if vis.get(x2, y) || !self.tile_at(x2, y).is_wall() {
                go = false;
            } else {
                x_end = x2;
            }
        }
        x_end
    }

    /// Whether every cell of `[x0, x1]` in row `y` is an unvisited wall.
    fn row_fresh(&self, vis: &FlagGrid, x0: usize, x1: usize, y: usize) -> (r: bool)
        requires
            self.wf(),
            self.flags_fit(*vis),
            x0 <= x1 < self.width_spec(),
            y < self.height_spec(),
        ensures
            r == self.fresh_walls(*vis, x0 as int, x1 as int, y as int, y as int),
    {
        let mut a = x0;
        while a <= x1
            invariant
                self.wf(),
                self.flags_fit(*vis),
                x0 <= a <= x1 + 1,
                x1 < self.width_spec(),
                y < self.height_spec(),
                self.fresh_walls(*vis, x0 as int, a - 1, y as int, y as int),
            decreases x1 + 1 - a,
        {
            if vis.get(a, y) || !self.tile_at(a, y).is_wall() {
                let ghost ai = a as int;
                let ghost yi = y as int;
                assert(!(!flag(*vis, ai, yi) && self.tile(ai, yi) is Wall));
                assert(x0 <= ai <= x1 && yi <= yi <= yi);
                assert(self.fresh_walls(*vis, x0 as int, x1 as int, yi, yi) ==> !flag(*vis, ai, yi));
                assert(self.fresh_walls(*vis, x0 as int, x1 as int, yi, yi) ==> self.tile(ai, yi) is Wall);
                assert(!self.fresh_walls(*vis, x0 as int, x1 as int, yi, yi));
                return false;
            }
            assert(!flag(*vis, a as int, y as int) && self.tile(a as int, y as int) is Wall);
            assert forall|i: int, b: int|
                #![trigger flag(*vis, i, b)]
                x0 <= i <= a && y <= b <= y implies !flag(*vis, i, b) && self.tile(i, b) is Wall by {
                if i < a {
                    assert(self.fresh_walls(*vis, x0 as int, a - 1, y as int, y as int));
                }
            }
            a += 1;
        }
        true
    }

    /// How far down from row `y` the rows of unvisited walls over `[x0, x1]` run.
    fn extend_y(&self, vis: &FlagGrid, x0: usize, x1: usize, y: usize) -> (r: usize)
        requires
            self.wf(),
            self.flags_fit(*vis),
            x0 <= x1 < self.width_spec(),
            y < self.height_spec(),
            self.fresh_walls(*vis, x0 as int, x1 as int, y as int, y as int),
        ensures
            y <= r < self.height_spec(),
            self.fresh_walls(*vis, x0 as int, x1 as int, y as int, r as int),
            r + 1 == self.height_spec() || !self.fresh_walls(*vis, x0 as int, x1 as int, r + 1, r + 1),
    {
        let h = self.height() as usize;
        let mut y_end = y;
        let mut go = true;
        while go && y_end + 1 < h
            invariant
                self.wf(),
                self.flags_fit(*vis),
                h == self.height_spec(),
                x0 <= x1 < self.width_spec(),
                y <= y_end < h,
                self.fresh_walls(*vis, x0 as int, x1 as int, y as int, y_end as int),
                !go ==> !self.fresh_walls(*vis, x0 as int, x1 as int, y_end + 1, y_end + 1),
            decreases h - y_end + if go { 1int } else { 0int },
        {
            let y2 = y_end + 1;
            if self.row_fresh(vis, x0, x1, y2) {
                y_end = y2;
            } else {
                go = false;
            }
        }
        y_end
    }
}

/// Sets the flag of every cell of `[x0, x1] x [y0, y1]`.
fn mark_block(vis: &mut FlagGrid, x0: usize, x1: usize, y0: usize, y1: usize)
    requires
        x0 <= x1 < flag_cells(*old(vis)).len(),
        x1 < MAX_SIDE,
        y0 <= y1 < MAX_SIDE,
        forall|a: int| 0 <= a < flag_cells(*old(vis)).len() ==> y1 < #[trigger] flag_cells(*old(vis))[a].len(),
    ensures
        flag_cells(*final(vis)).len() == flag_cells(*old(vis)).len(),
        forall|a: int|
            0 <= a < flag_cells(*old(vis)).len() ==> #[trigger] flag_cells(*final(vis))[a].len()
                == flag_cells(*old(vis))[a].len(),
        forall|a: int, b: int|
            #![trigger flag(*final(vis), a, b)]
            0 <= a < flag_cells(*old(vis)).len() && 0 <= b < flag_cells(*old(vis))[a].len() ==> flag(
                *final(vis),
                a,
                b,
            ) == (flag(*old(vis), a, b) || (x0 <= a <= x1 && y0 <= b <= y1)),
{
    let ghost orig = *vis;
    let mut b = y0;
    while b <= y1
        invariant
            x0 <= x1 < flag_cells(orig).len(),
            x1 < MAX_SIDE,
            y1 < MAX_SIDE,
            y0 <= b <= y1 + 1,
            forall|a: int| 0 <= a < flag_cells(orig).len() ==> y1 < #[trigger] flag_cells(orig)[a].len(),
            flag_cells(*vis).len() == flag_cells(orig).len(),
            forall|a: int|
                0 <= a < flag_cells(orig).len() ==> #[trigger] flag_cells(*vis)[a].len() == flag_cells(
                    orig,
                )[a].len(),
            forall|a: int, c: int|
                #![trigger flag(*vis, a, c)]
                0 <= a < flag_cells(orig).len() && 0 <= c < flag_cells(orig)[a].len() ==> flag(*vis, a, c)
                    == (flag(orig, a, c) || (x0 <= a <= x1 && y0 <= c < b)),
        decreases y1 + 1 - b,
    {
        let mut a = x0;
        while a <= x1
            invariant
                x0 <= x1 < flag_cells(orig).len(),
                x1 < MAX_SIDE,
                y1 < MAX_SIDE,
                y0 <= b <= y1,
                x0 <= a <= x1 + 1,
                forall|i: int| 0 <= i < flag_cells(orig).len() ==> y1 < #[trigger] flag_cells(orig)[i].len(),
                flag_cells(*vis).len() == flag_cells(orig).len(),
                forall|i: int|
                    0 <= i < flag_cells(orig).len() ==> #[trigger] flag_cells(*vis)[i].len()
                        == flag_cells(orig)[i].len(),
                forall|i: int, c: int|
                    #![trigger flag(*vis, i, c)]
                    0 <= i < flag_cells(orig).len() && 0 <= c < flag_cells(orig)[i].len() ==> flag(
                        *vis,
                        i,
                        c,
                    ) == (flag(orig, i, c) || (x0 <= i <= x1 && y0 <= c < b) || (x0 <= i < a && c
                        == b)),
            decreases x1 + 1 - a,
        {
            let ghost before = *vis;
            vis.set(a, b, true);
            proof {
                assert forall|i: int, c: int|
                    #![trigger flag(*vis, i, c)]
                    0 <= i < flag_cells(orig).len() && 0 <= c < flag_cells(orig)[i].len() implies flag(
                        *vis,
                        i,
                        c,
                    ) == (flag(orig, i, c) || (x0 <= i <= x1 && y0 <= c < b) || (x0 <= i < a + 1 && c
                        == b)) by {
                    if i == a {
                        assert(flag_cells(*vis)[i] == flag_cells(before)[i].update(b as int, true));
                        if c != b {
                            assert(flag(*vis, i, c) == flag(before, i, c));
                        } else {
                            assert(flag(*vis, i, c));
                        }
                    } else {
                        assert(flag_cells(*vis)[i] == flag_cells(before)[i]);
                        assert(flag(*vis, i, c) == flag(before, i, c));
                    }
                }
                assert forall|i: int|
                    0 <= i < flag_cells(orig).len() implies #[trigger] flag_cells(*vis)[i].len()
                        == flag_cells(orig)[i].len() by {
                    if i != a {
                        assert(flag_cells(*vis)[i] == flag_cells(before)[i]);
                    }
                }
            }
            a += 1;
        }
        b += 1;
    }
}

impl GridMap {
    /// Covers the wall cells with rectangles in one sweep by rows: from each wall cell not yet
    /// covered, the block runs right as far as uncovered walls go, then down as far as whole
    /// rows of uncovered walls under it go. The blocks are appended to the recorded walls.
    pub fn greedy_mesh_walls(&mut self)
        requires
            old(self).wf(),
        ensures
            final(self).wf(),
            final(self).same_shape(old(self)),
            final(self).cells() == old(self).cells(),
            final(self).rooms_spec() == old(self).rooms_spec(),
            final(self).doors_spec() == old(self).doors_spec(),
            final(self).corridors_spec() == old(self).corridors_spec(),
            final(self).floors_spec() == old(self).floors_spec(),
            old(self).walls_spec().len() <= final(self).walls_spec().len(),
            final(self).walls_spec().subrange(0, old(self).walls_spec().len() as int)
                == old(self).walls_spec(),
            final(self).wall_partition(
                final(self).walls_spec().subrange(
                    old(self).walls_spec().len() as int,
                    final(self).walls_spec().len() as int,
                ),
            ),
            final(self).greedy_sweep(
                final(self).walls_spec().subrange(
                    old(self).walls_spec().len() as int,
                    final(self).walls_spec().len() as int,
                ),
            ),
    {
        let ghost orig = *self;
        let ghost mut blocks: Seq<MapObject> = Seq::empty();
        let w = self.width() as usize;
        let h = self.height() as usize;
        let mut vis = FlagGrid::filled_false(w, h);
        let mut y: usize = 0;
        assert(self.walls_spec() =~= orig.walls_spec() + blocks);
        while y < h
            invariant
                self.wf(),
                self.same_shape(&orig),
                w == self.width_spec(),
                h == self.height_spec(),
                self.cells() == orig.cells(),
                self.rooms_spec() == orig.rooms_spec(),
                self.doors_spec() == orig.doors_spec(),
                self.corridors_spec() == orig.corridors_spec(),
                self.floors_spec() == orig.floors_spec(),
                self.walls_spec() == orig.walls_spec() + blocks,
                y <= h,
                self.sweep_state(vis, blocks, 0, y as int),
            decreases h - y,
        {
            let mut x: usize = 0;
            while x < w
                invariant
                    self.wf(),
                    self.same_shape(&orig),
                    w == self.width_spec(),
                    h == self.height_spec(),
                    self.cells() == orig.cells(),
                    self.rooms_spec() == orig.rooms_spec(),
                    self.doors_spec() == orig.doors_spec(),
                    self.corridors_spec() == orig.corridors_spec(),
                    self.floors_spec() == orig.floors_spec(),
                    self.walls_spec() == orig.walls_spec() + blocks,
                    y < h,
                    x <= w,
                    self.sweep_state(vis, blocks, x as int, y as int),
                decreases w - x,
            {
                let ghost v0 = vis;
                if vis.get(x, y) {
                } else if !self.tile_at(x, y).is_wall() {
                    vis.set(x, y, true);
                    proof {
                        self.lemma_flag_one(v0, vis, blocks, x as int, y as int);
                    }
                } else {
                    let x_end = self.extend_x(&vis, x, y);
                    let y_end = self.extend_y(&vis, x, x_end, y);
                    let o = MapObject::new((x, y), (x_end, y_end));
                    mark_block(&mut vis, x, x_end, y, y_end);
                    proof {
                        self.lemma_add_block(v0, vis, blocks, o, x as int, y as int);
                    }
                    let ghost s0 = *self;
                    self.push_wall(o);
                    proof {
                        self.lemma_sweep_same_grid(&s0, vis, blocks.push(o), x + 1, y as int);
                        blocks = blocks.push(o);
                        assert(self.walls_spec() =~= orig.walls_spec() + blocks);
                    }
                }
                x += 1;
            }
            proof {
                self.lemma_next_row(vis, blocks, y as int);
            }
            y += 1;
        }
        proof {
            assert(self.walls_spec().subrange(0, orig.walls_spec().len() as int) =~= orig.walls_spec());
            assert(self.walls_spec().subrange(
                orig.walls_spec().len() as int,
                self.walls_spec().len() as int,
            ) =~= blocks);
            assert forall|a: int, b: int|
                #![trigger self.tile(a, b)]
                self.in_grid(a, b) && self.tile(a, b) is Wall implies GridMap::covered(blocks, a, b) by {
                assert(flag(vis, a, b));
            }
        }
    }

    proof fn lemma_sweep_same_grid(&self, o: &GridMap, vis: FlagGrid, blocks: Seq<MapObject>, x: int, y: int)
        requires
            o.sweep_state(vis, blocks, x, y),
            self.cells() == o.cells(),
            self.same_shape(o),
        ensures
            self.sweep_state(vis, blocks, x, y),
    {
        assert forall|k: int| 0 <= k < blocks.len() implies #[trigger] self.greedy_block(blocks, k) by {
            assert(o.greedy_block(blocks, k));
            let b = blocks[k];
            let (x1, y1) = (b.end_spec().0 as int, b.end_spec().1 as int);
            assert(self.tile(x1 + 1, b.start_spec().1 as int) == o.tile(x1 + 1, b.start_spec().1 as int));
            if y1 + 1 < o.height_spec() {
                let a = choose|a: int|
                    b.start_spec().0 <= a <= x1 && (!(#[trigger] o.tile(a, y1 + 1) is Wall) || covered_before(
                        blocks,
                        k,
                        a,
                        y1 + 1,
                    ));
                assert(self.tile(a, y1 + 1) == o.tile(a, y1 + 1));
            }
        }
    }

    proof fn lemma_next_row(&self, vis: FlagGrid, blocks: Seq<MapObject>, y: int)
        requires
            self.sweep_state(vis, blocks, self.width_spec(), y),
        ensures
            self.sweep_state(vis, blocks, 0, y + 1),
    {
        assert forall|a: int, b: int|
            #![trigger flag(vis, a, b)]
            self.in_grid(a, b) && flag(vis, a, b) implies (scanned_before(a, b, 0, y + 1) && !(self.tile(
                a,
                b,
            ) is Wall)) || GridMap::covered(blocks, a, b) by {
            assert(scanned_before(a, b, self.width_spec(), y) == scanned_before(a, b, 0, y + 1));
        }
        assert forall|a: int, b: int|
            #![trigger flag(vis, a, b)]
            self.in_grid(a, b) && scanned_before(a, b, 0, y + 1) implies flag(vis, a, b) by {
            assert(scanned_before(a, b, self.width_spec(), y));
        }
    }

    /// Flagging the open cell `(x, y)` moves the sweep one cell on.
    proof fn lemma_flag_one(&self, v0: FlagGrid, v1: FlagGrid, blocks: Seq<MapObject>, x: int, y: int)
        requires
            self.wf(),
            self.in_grid(x, y),
            !(self.tile(x, y) is Wall),
            self.sweep_state(v0, blocks, x, y),
            flag_cells(v1) == flag_cells(v0).update(x, flag_cells(v0)[x].update(y, true)),
        ensures
            self.sweep_state(v1, blocks, x + 1, y),
    {
        assert forall|a: int| 0 <= a < self.width_spec() implies #[trigger] flag_cells(v1)[a].len()
            == self.height_spec() by {
            if a != x {
                assert(flag_cells(v1)[a] == flag_cells(v0)[a]);
            }
        }
        assert forall|a: int, b: int| self.in_grid(a, b) implies #[trigger] flag(v1, a, b) == (flag(v0, a, b)
            || (a == x && b == y)) by {
            if a != x {
                assert(flag_cells(v1)[a] == flag_cells(v0)[a]);
            } else {
                assert(flag_cells(v1)[a] == flag_cells(v0)[a].update(y, true));
            }
            assert(flag(v0, a, b) == flag_cells(v0)[a][b]);
        }
        assert forall|k: int, a: int, b: int|
            0 <= k < blocks.len() && #[trigger] in_block(blocks[k], a, b) implies flag(v1, a, b) by {
            assert(flag(v0, a, b));
            assert(self.wall_block(blocks[k]));
        }
    }

    /// Emitting the block `o` of fresh walls from `(x, y)` and flagging its cells moves the sweep
    /// one cell on.
    proof fn lemma_add_block(
        &self,
        v0: FlagGrid,
        v1: FlagGrid,
        blocks: Seq<MapObject>,
        o: MapObject,
        x: int,
        y: int,
    )
        requires
            self.wf(),
            self.sweep_state(v0, blocks, x, y),
            o.start_spec() == (x as usize, y as usize),
            x <= o.end_spec().0 < self.width_spec(),
            y <= o.end_spec().1 < self.height_spec(),
            0 <= x,
            0 <= y,
            self.fresh_walls(v0, x, o.end_spec().0 as int, y, o.end_spec().1 as int),
            o.end_spec().0 + 1 == self.width_spec() || flag(v0, o.end_spec().0 + 1, y) || !(self.tile(
                o.end_spec().0 + 1,
                y,
            ) is Wall),
            o.end_spec().1 + 1 == self.height_spec() || !self.fresh_walls(
                v0,
                x,
                o.end_spec().0 as int,
                o.end_spec().1 + 1,
                o.end_spec().1 + 1,
            ),
            flag_cells(v1).len() == flag_cells(v0).len(),
            forall|a: int|
                0 <= a < flag_cells(v0).len() ==> #[trigger] flag_cells(v1)[a].len()
                    == flag_cells(v0)[a].len(),
            forall|a: int, b: int|
                #![trigger flag(v1, a, b)]
                0 <= a < flag_cells(v0).len() && 0 <= b < flag_cells(v0)[a].len() ==> flag(v1, a, b)
                    == (flag(v0, a, b) || (x <= a <= o.end_spec().0 && y <= b <= o.end_spec().1)),
        ensures
            self.sweep_state(v1, blocks.push(o), x + 1, y),
    {
        let nb = blocks.push(o);
        let n = blocks.len() as int;
        assert(nb[n] == o);
        assert forall|a: int, b: int|
            #![trigger self.tile(a, b)]
            in_block(o, a, b) implies self.tile(a, b) is Wall by {
            assert(!flag(v0, a, b) && self.tile(a, b) is Wall);
        }
        assert(self.wall_block(o));
        assert forall|k: int| 0 <= k < nb.len() implies self.wall_block(#[trigger] nb[k]) by {
            if k < n {
                assert(nb[k] == blocks[k]);
            }
        }
        assert forall|k1: int, k2: int, a: int, b: int|
            0 <= k1 < nb.len() && 0 <= k2 < nb.len() && k1 != k2 && #[trigger] in_block(nb[k1], a, b)
                implies !#[trigger] in_block(nb[k2], a, b) by {
            if k1 < n && k2 < n {
                assert(nb[k1] == blocks[k1]);
                assert(nb[k2] == blocks[k2]);
            } else if k1 == n {
                assert(nb[k2] == blocks[k2]);
                assert(!flag(v0, a, b));
                if in_block(blocks[k2], a, b) {
                    assert(flag(v0, a, b));
                }
            } else {
                assert(nb[k1] == blocks[k1]);
                assert(flag(v0, a, b));
                if in_block(o, a, b) {
                    assert(!flag(v0, a, b));
                }
            }
        }
        assert forall|a: int, b: int|
            #![trigger flag(v1, a, b)]
            self.in_grid(a, b) && flag(v1, a, b) implies (scanned_before(a, b, x + 1, y) && !(self.tile(
                a,
                b,
            ) is Wall)) || GridMap::covered(nb, a, b) by {
            if flag(v0, a, b) {
                if GridMap::covered(blocks, a, b) {
                    let k = choose|k: int| 0 <= k < blocks.len() && #[trigger] in_block(blocks[k], a, b);
                    assert(nb[k] == blocks[k]);
                    assert(in_block(nb[k], a, b));
                }
            } else {
                assert(in_block(nb[n], a, b));
            }
        }
        assert forall|k: int, a: int, b: int|
            0 <= k < nb.len() && #[trigger] in_block(nb[k], a, b) implies flag(v1, a, b) by {
            if k < n {
                assert(nb[k] == blocks[k]);
                assert(flag(v0, a, b));
                assert(self.wall_block(blocks[k]));
            }
        }
        assert forall|a: int, b: int|
            #![trigger flag(v1, a, b)]
            self.in_grid(a, b) && scanned_before(a, b, x + 1, y) implies flag(v1, a, b) by {
            if !scanned_before(a, b, x, y) {
                assert(a == x && b == y);
            }
        }
        let (x1, y1) = (o.end_spec().0 as int, o.end_spec().1 as int);
        assert forall|k: int| 0 <= k < nb.len() implies #[trigger] self.greedy_block(nb, k) by {
            if k < n {
                assert(self.greedy_block(blocks, k));
                assert(nb[k] == blocks[k]);
                let bk = blocks[k];
                let (kx1, ky0, ky1) = (bk.end_spec().0 as int, bk.start_spec().1 as int, bk.end_spec().1 as int);
                if covered_before(blocks, k, kx1 + 1, ky0) {
                    let j = choose|j: int| 0 <= j < k && #[trigger] in_block(blocks[j], kx1 + 1, ky0);
                    assert(nb[j] == blocks[j]);
                    assert(in_block(nb[j], kx1 + 1, ky0));
                }
                if ky1 + 1 < self.height_spec() {
                    let a = choose|a: int|
                        bk.start_spec().0 <= a <= kx1 && (!(#[trigger] self.tile(a, ky1 + 1) is Wall)
                            || covered_before(blocks, k, a, ky1 + 1));
                    if covered_before(blocks, k, a, ky1 + 1) {
                        let j = choose|j: int| 0 <= j < k && #[trigger] in_block(blocks[j], a, ky1 + 1);
                        assert(nb[j] == blocks[j]);
                        assert(in_block(nb[j], a, ky1 + 1));
                    }
                }
            } else {
                assert(nb[k] == o);
                if x1 + 1 < self.width_spec() && flag(v0, x1 + 1, y) && self.tile(x1 + 1, y) is Wall {
                    assert(GridMap::covered(blocks, x1 + 1, y));
                    let j = choose|j: int| 0 <= j < blocks.len() && #[trigger] in_block(blocks[j], x1 + 1, y);
                    assert(nb[j] == blocks[j]);
                    assert(in_block(nb[j], x1 + 1, y));
                }
                if y1 + 1 < self.height_spec() {
                    assert(!self.fresh_walls(v0, x, x1, y1 + 1, y1 + 1));
                    let (a, b) = choose|a: int, b: int|
                        x <= a <= x1 && y1 + 1 <= b <= y1 + 1 && !(!flag(v0, a, b) && self.tile(a, b) is Wall);
                    assert(b == y1 + 1);
                    if flag(v0, a, b) && self.tile(a, b) is Wall {
                        assert(self.in_grid(a, b));
                        assert(GridMap::covered(blocks, a, b));
                        let j = choose|j: int| 0 <= j < blocks.len() && #[trigger] in_block(blocks[j], a, b);
                        assert(nb[j] == blocks[j]);
                        assert(in_block(nb[j], a, b));
                    }
                    assert(o.start_spec().0 <= a <= x1 && (!(self.tile(a, y1 + 1) is Wall) || covered_before(
                        nb,
                        k,
                        a,
                        y1 + 1,
                    )));
                }
            }
        }
        assert forall|k1: int, k2: int|
            0 <= k1 < k2 < nb.len() implies scanned_before(
                (#[trigger] nb[k1]).start_spec().0 as int,
                nb[k1].start_spec().1 as int,
                (#[trigger] nb[k2]).start_spec().0 as int,
                nb[k2].start_spec().1 as int,
            ) by {
            assert(nb[k1] == blocks[k1]);
            if k2 < n {
                assert(nb[k2] == blocks[k2]);
            }
        }
        assert forall|k: int|
            0 <= k < nb.len() implies scanned_before(
                (#[trigger] nb[k]).start_spec().0 as int,
                nb[k].start_spec().1 as int,
                x + 1,
                y,
            ) by {
            if k < n {
                assert(nb[k] == blocks[k]);
            }
        }
    }
}

} // verus!

use vstd::prelude::*;
use crate::grid::{GridMap, TileState, MAX_SIDE};
use crate::maze::{offset_cell, pos};
use crate::mesh::scanned_before;

verus! {

impl GridMap {
    /// How many of the first `k` straight neighbours of `c` are walls or off the grid.
    pub open spec fn blocked_among(&self, c: (int, int), k: int) -> int
        decreases k,
    {
        if k <= 0 {
            0
        } else {
            self.blocked_among(c, k - 1) + if self.blocked(offset_cell(c, k - 1).0, offset_cell(c, k - 1).1) {
                1int
            } else {
                0int
            }
        }
    }

    /// How many of the four straight neighbours of `c` are walls or off the grid.
    pub open spec fn wall_neighbours(&self, c: (int, int)) -> int {
        self.blocked_among(c, 4)
    }

    /// A corridor cell closed in on three or four sides.
    pub open spec fn dead_end(&self, c: (int, int)) -> bool {
        &&& self.in_grid(c.0, c.1)
        &&& self.tile(c.0, c.1) is Corridor
        &&& self.wall_neighbours(c) >= 3
    }

    /// Every change from `o` turns a corridor cell into a wall.
    pub open spec fn only_filled_from(&self, o: &GridMap) -> bool {
        forall|x: int, y: int|
            #![trigger self.tile(x, y)]
            self.in_grid(x, y) ==> self.tile(x, y) == o.tile(x, y) || (o.tile(x, y) is Corridor
                && self.tile(x, y) is Wall)
    }

    /// How many of the first `k` straight neighbours of `c` are off the grid, walls, or in `d`.
    pub open spec fn closed_among(&self, d: Set<(int, int)>, c: (int, int), k: int) -> int
        decreases k,
    {
        if k <= 0 {
            0
        } else {
            let n = offset_cell(c, k - 1);
            self.closed_among(d, c, k - 1) + if self.blocked(n.0, n.1) || d.contains(n) {
                1int
            } else {
                0int
            }
        }
    }

    /// `d` holds every corridor cell that would be a dead end if the cells of `d` were walls.
    pub open spec fn prune_closed(&self, d: Set<(int, int)>) -> bool {
        forall|x: int, y: int|
            #![trigger self.tile(x, y)]
            self.in_grid(x, y) && self.tile(x, y) is Corridor && self.closed_among(d, (x, y), 4) >= 3
                ==> d.contains((x, y))
    }

    /// Every cell changed from `o` lies in every set closed for `o` in the sense above: only
    /// cells that pruning dead ends, again and again, forces to become walls have been filled.
    pub open spec fn within_forced(&self, o: &GridMap) -> bool {
        forall|d: Set<(int, int)>|
            #[trigger] o.prune_closed(d) ==> forall|x: int, y: int|
                #![trigger self.tile(x, y)]
                self.in_grid(x, y) && self.tile(x, y) != o.tile(x, y) ==> d.contains((x, y))
    }

    proof fn lemma_blocked_count_le(&self, o: &GridMap, d: Set<(int, int)>, c: (int, int), k: int)
        requires
            forall|j: int|
                0 <= j < k ==> {
                    let n = #[trigger] offset_cell(c, j);
                    self.blocked(n.0, n.1) ==> o.blocked(n.0, n.1) || d.contains(n)
                },
        ensures
            self.blocked_among(c, k) <= o.closed_among(d, c, k),
        decreases k,
    {
        if k > 0 {
            let _ = offset_cell(c, k - 1);
            self.lemma_blocked_count_le(o, d, c, k - 1);
        }
    }

    proof fn lemma_closed_count_le(&self, o: &GridMap, d: Set<(int, int)>, c: (int, int), k: int)
        requires
            forall|j: int|
                0 <= j < k ==> {
                    let n = #[trigger] offset_cell(c, j);
                    self.blocked(n.0, n.1) || d.contains(n) ==> o.blocked(n.0, n.1) || d.contains(n)
                },
        ensures
            self.closed_among(d, c, k) <= o.closed_among(d, c, k),
        decreases k,
    {
        if k > 0 {
            let _ = offset_cell(c, k - 1);
            self.lemma_closed_count_le(o, d, c, k - 1);
        }
    }

    /// A dead end of a grid that pruning reached from `o` lies in every set closed for `o`.
    proof fn lemma_dead_end_forced(&self, o: &GridMap, c: (int, int))
        requires
            self.same_shape(o),
            self.only_filled_from(o),
            self.within_forced(o),
            self.in_grid(c.0, c.1),
            self.tile(c.0, c.1) is Corridor,
            self.wall_neighbours(c) >= 3,
        ensures
            forall|d: Set<(int, int)>| #[trigger] o.prune_closed(d) ==> d.contains(c),
    {
        assert forall|d: Set<(int, int)>| #[trigger] o.prune_closed(d) implies d.contains(c) by {
            assert forall|j: int| 0 <= j < 4 implies {
                let n = #[trigger] offset_cell(c, j);
                self.blocked(n.0, n.1) ==> o.blocked(n.0, n.1) || d.contains(n)
            } by {
                let n = offset_cell(c, j);
                if self.in_grid(n.0, n.1) && self.tile(n.0, n.1) != o.tile(n.0, n.1) {
                    assert(d.contains(n));
                }
            }
            self.lemma_blocked_count_le(o, d, c, 4);
            assert(o.tile(c.0, c.1) == self.tile(c.0, c.1));
        }
    }

    /// Filling what is forced from `o` and then what is forced from the result fills only what is
    /// forced from `o`.
    proof fn lemma_forced_trans(&self, mid: &GridMap, o: &GridMap)
        requires
            mid.same_shape(o),
            self.same_shape(mid),
            mid.only_filled_from(o),
            self.only_filled_from(mid),
            mid.within_forced(o),
            self.within_forced(mid),
        ensures
            self.within_forced(o),
            self.only_filled_from(o),
    {
        assert forall|d: Set<(int, int)>| #[trigger] o.prune_closed(d) implies forall|x: int, y: int|
            #![trigger self.tile(x, y)]
            self.in_grid(x, y) && self.tile(x, y) != o.tile(x, y) ==> d.contains((x, y)) by {
            assert forall|x: int, y: int|
                #![trigger mid.tile(x, y)]
                mid.in_grid(x, y) && mid.tile(x, y) is Corridor && mid.closed_among(d, (x, y), 4) >= 3 implies d.contains(
                (x, y),
            ) by {
                assert forall|j: int| 0 <= j < 4 implies {
                    let n = #[trigger] offset_cell((x, y), j);
                    mid.blocked(n.0, n.1) || d.contains(n) ==> o.blocked(n.0, n.1) || d.contains(n)
                } by {
                    let n = offset_cell((x, y), j);
                    if mid.in_grid(n.0, n.1) && mid.tile(n.0, n.1) != o.tile(n.0, n.1) {
                        assert(d.contains(n));
                    }
                }
                mid.lemma_closed_count_le(o, d, (x, y), 4);
                assert(o.tile(x, y) == mid.tile(x, y));
            }
            assert(mid.prune_closed(d));
            assert forall|x: int, y: int|
                #![trigger self.tile(x, y)]
                self.in_grid(x, y) && self.tile(x, y) != o.tile(x, y) implies d.contains((x, y)) by {
                if self.tile(x, y) == mid.tile(x, y) {
                    assert(mid.tile(x, y) != o.tile(x, y));
                } else {
                    assert(self.tile(x, y) != mid.tile(x, y));
                }
            }
        }
        assert forall|x: int, y: int|
            #![trigger self.tile(x, y)]
            self.in_grid(x, y) implies self.tile(x, y) == o.tile(x, y) || (o.tile(x, y) is Corridor
                && self.tile(x, y) is Wall) by {
            assert(self.tile(x, y) == mid.tile(x, y) || (mid.tile(x, y) is Corridor && self.tile(x, y) is Wall));
            assert(mid.tile(x, y) == o.tile(x, y) || (o.tile(x, y) is Corridor && mid.tile(x, y) is Wall));
        }
    }

    pub proof fn lemma_same_cells_same_walls(&self, o: &GridMap, c: (int, int), k: int)
        requires
            self.cells() == o.cells(),
            self.same_shape(o),
        ensures
            self.blocked_among(c, k) == o.blocked_among(c, k),
        decreases k,
    {
        if k > 0 {
            self.lemma_same_cells_same_walls(o, c, k - 1);
        }
    }

    /// The number of walled or off-grid straight neighbours of `c`, and the index of the last
    /// straight neighbour that is a corridor cell (`4` when there is none).
    pub fn count_walls(&self, c: (usize, usize)) -> (r: (usize, usize))
        requires
            self.wf(),
            self.in_grid(c.0 as int, c.1 as int),
        ensures
            r.0 == self.wall_neighbours(pos(c)),
            r.1 <= 4,
            r.1 < 4 ==> {
                let n = offset_cell(pos(c), r.1 as int);
                self.in_grid(n.0, n.1) && self.tile(n.0, n.1) is Corridor
            },
    {
        let mut walls: usize = 0;
        let mut back_i: usize = 4;
        let mut k: usize = 0;
        while k < 4
            invariant
                self.wf(),
                self.in_grid(c.0 as int, c.1 as int),
                k <= 4,
                walls == self.blocked_among(pos(c), k as int),
                walls <= k,
                back_i <= 4,
                back_i < 4 ==> {
                    let n = offset_cell(pos(c), back_i as int);
                    self.in_grid(n.0, n.1) && self.tile(n.0, n.1) is Corridor
                },
            decreases 4 - k,
        {
            match self.resolve_neighbour(c.0, c.1, k) {
                Some((nx, ny)) => {
                    match self.tile_at(nx, ny) {
                        TileState::Wall => {
                            walls += 1;
                        },
                        TileState::Corridor(_) => {
                            back_i = k;
                        },
                        _ => {},
                    }
                },
                None => {
                    walls += 1;
                },
            }
            k += 1;
        }
        (walls, back_i)
    }

    /// Starting from the corridor cell `start`, turns dead ends into walls, walking back along
    /// the corridor while the cells it reaches are dead ends in turn. Returns how many cells it
    /// turned into walls.
    fn prune_from(&mut self, start: (usize, usize)) -> (removed: usize)
        requires
            old(self).wf(),
            old(self).in_grid(start.0 as int, start.1 as int),
            old(self).tile(start.0 as int, start.1 as int) is Corridor,
        ensures
            final(self).wf(),
            final(self).same_shape(old(self)),
            final(self).same_records(old(self)),
            final(self).only_filled_from(old(self)),
            final(self).open_count() + removed == old(self).open_count(),
            removed == 0 ==> final(self).cells() == old(self).cells() && !old(self).dead_end(pos(start)),
            final(self).within_forced(old(self)),
    {
        let ghost orig = *self;
        let mut removed: usize = 0;
        let mut current: Option<(usize, usize)> = Some(start);
        proof {
            self.lemma_open_count_bound();
        }
        while current.is_some()
            invariant
                self.wf(),
                self.same_shape(&orig),
                self.same_records(&orig),
                self.only_filled_from(&orig),
                self.open_count() + removed == orig.open_count(),
                orig.open_count() <= MAX_SIDE * MAX_SIDE,
                current matches Some(c) ==> self.in_grid(c.0 as int, c.1 as int) && self.tile(
                    c.0 as int,
                    c.1 as int,
                ) is Corridor,
                removed == 0 ==> self.cells() == orig.cells(),
                removed == 0 && current is None ==> !orig.dead_end(pos(start)),
                removed == 0 && current is Some ==> current == Some(start),
                self.within_forced(&orig),
            decreases 2 * self.open_count() + if current is Some { 1int } else { 0int },
        {
            let c = current.unwrap();
            current = None;
            let (walls, back_i) = self.count_walls(c);
            proof {
                if removed == 0 {
                    self.lemma_same_cells_same_walls(&orig, pos(c), 4);
                }
            }
            if walls >= 3 {
                let ghost before = *self;
                proof {
                    before.lemma_dead_end_forced(&orig, pos(c));
                }
                self.set_tile(c.0, c.1, TileState::Wall);
                proof {
                    assert forall|x: int, y: int|
                        #![trigger self.tile(x, y)]
                        self.in_grid(x, y) implies self.tile(x, y) == orig.tile(x, y) || (orig.tile(
                            x,
                            y,
                        ) is Corridor && self.tile(x, y) is Wall) by {
                        if x == c.0 && y == c.1 {
                            assert(before.tile(x, y) is Corridor);
                        } else {
                            assert(self.tile(x, y) == before.tile(x, y));
                        }
                    }
                    assert forall|d: Set<(int, int)>| #[trigger] orig.prune_closed(d) implies forall|x: int, y: int|
                        #![trigger self.tile(x, y)]
                        self.in_grid(x, y) && self.tile(x, y) != orig.tile(x, y) ==> d.contains((x, y)) by {
                        assert forall|x: int, y: int|
                            #![trigger self.tile(x, y)]
                            self.in_grid(x, y) && self.tile(x, y) != orig.tile(x, y) implies d.contains((x, y)) by {
                            if x == c.0 && y == c.1 {
                                assert(d.contains(pos(c)));
                            } else {
                                assert(self.tile(x, y) == before.tile(x, y));
                            }
                        }
                    }
                }
                removed += 1;
                if back_i < 4 {
                    let ghost n = offset_cell(pos(c), back_i as int);
                    current = self.resolve_neighbour(c.0, c.1, back_i);
                    proof {
                        assert(n != pos(c));
                        assert(self.tile(n.0, n.1) == before.tile(n.0, n.1));
                    }
                }
            }
        }
        removed
    }

    /// One sweep over the grid by rows, pruning from every corridor cell. Returns how many
    /// cells it turned into walls; when none, the grid holds no dead end.
    pub fn remove_dead_ends_pass(&mut self) -> (removed: usize)
        requires
            old(self).wf(),
        ensures
            final(self).wf(),
            final(self).same_shape(old(self)),
            final(self).same_records(old(self)),
            final(self).only_filled_from(old(self)),
            final(self).open_count() + removed == old(self).open_count(),
            removed == 0 ==> forall|x: int, y: int| !#[trigger] final(self).dead_end((x, y)),
            final(self).within_forced(old(self)),
    {
        let ghost orig = *self;
        let w = self.width() as usize;
        let h = self.height() as usize;
        let mut removed: usize = 0;
        proof {
            self.lemma_open_count_bound();
        }
        let mut y: usize = 0;
        while y < h
            invariant
                self.wf(),
                self.same_shape(&orig),
                self.same_records(&orig),
                self.only_filled_from(&orig),
                w == self.width_spec(),
                h == self.height_spec(),
                y <= h,
                self.open_count() + removed == orig.open_count(),
                orig.open_count() <= MAX_SIDE * MAX_SIDE,
                removed == 0 ==> self.cells() == orig.cells(),
                removed == 0 ==> forall|a: int, b: int|
                    scanned_before(a, b, 0, y as int) ==> !#[trigger] orig.dead_end((a, b)),
                self.within_forced(&orig),
            decreases h - y,
        {
            let mut x: usize = 0;
            while x < w
                invariant
                    self.wf(),
                    self.same_shape(&orig),
                    self.same_records(&orig),
                    self.only_filled_from(&orig),
                    w == self.width_spec(),
                    h == self.height_spec(),
                    y < h,
                    x <= w,
                    self.open_count() + removed == orig.open_count(),
                    orig.open_count() <= MAX_SIDE * MAX_SIDE,
                    removed == 0 ==> self.cells() == orig.cells(),
                    removed == 0 ==> forall|a: int, b: int|
                        scanned_before(a, b, x as int, y as int) ==> !#[trigger] orig.dead_end((a, b)),
                    self.within_forced(&orig),
                decreases w - x,
            {
                let ghost r0 = removed;
                if let TileState::Corridor(_) = self.tile_at(x, y) {
                    let ghost before = *self;
                    let n = self.prune_from((x, y));
                    proof {
                        self.lemma_forced_trans(&before, &orig);
                        assert forall|a: int, b: int|
                            #![trigger self.tile(a, b)]
                            self.in_grid(a, b) implies self.tile(a, b) == orig.tile(a, b) || (orig.tile(
                                a,
                                b,
                            ) is Corridor && self.tile(a, b) is Wall) by {
                            assert(self.tile(a, b) == before.tile(a, b) || (before.tile(a, b) is Corridor
                                && self.tile(a, b) is Wall));
                            assert(before.tile(a, b) == orig.tile(a, b) || (orig.tile(a, b) is Corridor
                                && before.tile(a, b) is Wall));
                        }
                    }
                    proof {
                        if n == 0 && r0 == 0 {
                            before.lemma_same_cells_same_walls(&orig, (x as int, y as int), 4);
                            assert(!orig.dead_end((x as int, y as int)));
                        }
                    }
                    removed = removed + n;
                }
                proof {
                    if removed == 0 {
                        assert(!orig.dead_end((x as int, y as int)));
                        assert forall|a: int, b: int|
                            scanned_before(a, b, x + 1, y as int) implies !#[trigger] orig.dead_end((a, b)) by {
                            if !scanned_before(a, b, x as int, y as int) {
                                assert(a == x && b == y);
                            }
                        }
                    }
                }
                x += 1;
            }
            proof {
                if removed == 0 {
                    assert forall|a: int, b: int|
                        scanned_before(a, b, 0, y + 1) implies !#[trigger] orig.dead_end((a, b)) by {
                        if !scanned_before(a, b, w as int, y as int) {
                            assert(!orig.in_grid(a, b));
                        }
                    }
                }
            }
            y += 1;
        }
        proof {
            if removed == 0 {
                assert forall|a: int, b: int| !#[trigger] self.dead_end((a, b)) by {
                    self.lemma_same_cells_same_walls(&orig, (a, b), 4);
                    if orig.in_grid(a, b) {
                        assert(scanned_before(a, b, 0, h as int));
                        assert(!orig.dead_end((a, b)));
                    }
                }
            }
        }
        removed
    }

    /// Prunes dead ends until none is left. Only cells that pruning forces are filled: each lies
    /// in every set of corridor cells that, counted as walls, holds all the dead ends it makes.
    pub fn remove_dead_ends(&mut self)
        requires
            old(self).wf(),
        ensures
            final(self).wf(),
            final(self).same_shape(old(self)),
            final(self).same_records(old(self)),
            final(self).only_filled_from(old(self)),
            forall|x: int, y: int| !#[trigger] final(self).dead_end((x, y)),
            final(self).within_forced(old(self)),
    {
        let ghost orig = *self;
        proof {
            assert forall|d: Set<(int, int)>| #[trigger] orig.prune_closed(d) implies forall|x: int, y: int|
                #![trigger self.tile(x, y)]
                self.in_grid(x, y) && self.tile(x, y) != orig.tile(x, y) ==> d.contains((x, y)) by {}
        }
        loop
            invariant
                self.wf(),
                self.same_shape(&orig),
                self.same_records(&orig),
                self.only_filled_from(&orig),
                self.within_forced(&orig),
            ensures
                forall|x: int, y: int| !#[trigger] self.dead_end((x, y)),
            decreases self.open_count(),
        {
            let ghost before = *self;
            let n = self.remove_dead_ends_pass();
            proof {
                self.lemma_forced_trans(&before, &orig);
                assert forall|a: int, b: int|
                    #![trigger self.tile(a, b)]
                    self.in_grid(a, b) implies self.tile(a, b) == orig.tile(a, b) || (orig.tile(a, b) is Corridor
                        && self.tile(a, b) is Wall) by {
                    assert(self.tile(a, b) == before.tile(a, b) || (before.tile(a, b) is Corridor
                        && self.tile(a, b) is Wall));
                    assert(before.tile(a, b) == orig.tile(a, b) || (orig.tile(a, b) is Corridor
                        && before.tile(a, b) is Wall));
                }
            }
            if n == 0 {
                break ;
            }
        }
    }
}

} // verus!

use vstd::prelude::*;
use crate::grid::{GridMap, TileState, dir_offset, MAX_SIDE};
use crate::rng::{random_below, shuffle_in_place, lemma_permutation_elements};
use crate::config::PER_MILLE;

verus! {

/// A cell position as integers.
pub open spec fn pos(c: (usize, usize)) -> (int, int) {
    (c.0 as int, c.1 as int)
}

pub open spec fn opt_pos(c: Option<(usize, usize)>) -> Option<(int, int)> {
    match c {
        Some(p) => Some(pos(p)),
        None => None,
    }
}

/// The cell at offset `k` from `c`.
pub open spec fn offset_cell(c: (int, int), k: int) -> (int, int) {
    (c.0 + dir_offset(k).0, c.1 + dir_offset(k).1)
}

/// The directions are four indices among the four straight neighbour offsets.
pub open spec fn straight_dirs(order: Seq<usize>) -> bool {
    &&& order.len() == 4
    &&& forall|i: int| 0 <= i < 4 ==> #[trigger] order[i] < 4
}

/// The directions are the four straight neighbour offsets, each once.
pub open spec fn all_dirs(order: Seq<usize>) -> bool {
    &&& straight_dirs(order)
    &&& forall|d: usize| d < 4 ==> #[trigger] order.contains(d)
}

/// Whether `c` is one of the cells of `stack`.
pub open spec fn on_stack(stack: Seq<(usize, usize)>, c: (int, int)) -> bool {
    exists|k: int| 0 <= k < stack.len() && #[trigger] pos(stack[k]) == c
}

/// The straight direction opposite to `d`.
pub open spec fn opposite(d: int) -> int {
    if d == 0 {
        1
    } else if d == 1 {
        0
    } else if d == 2 {
        3
    } else {
        2
    }
}

/// The candidate tried at rotation step `i`, starting from preferred index `start_i`.
pub open spec fn rotated_candidate(cur: (int, int), order: Seq<usize>, start_i: int, i: int) -> (
    int,
    int,
) {
    offset_cell(cur, order[(start_i + i) % 4] as int)
}

impl GridMap {
    /// `n` can extend a corridor coming from `from`: it is a wall, and each of its eight
    /// neighbours lies on the grid and is a wall, apart from `from` and the cell before it.
    pub open spec fn carvable(&self, n: (int, int), from: (int, int), prev: Option<(int, int)>) -> bool {
        &&& self.in_grid(n.0, n.1)
        &&& self.tile(n.0, n.1) is Wall
        &&& forall|k: int|
            0 <= k < 8 ==> {
                let o = #[trigger] offset_cell(n, k);
                self.in_grid(o.0, o.1) && (o == from || prev == Some(o) || self.tile(o.0, o.1) is Wall)
            }
    }

    /// Every one of the eight neighbours of `c` that lies on the grid is `are`; one off the grid
    /// is accepted only when `outok` holds.
    pub open spec fn neighbours_are(&self, c: (int, int), are: TileState, outok: bool) -> bool {
        forall|k: int|
            0 <= k < 8 ==> {
                let o = #[trigger] offset_cell(c, k);
                if self.in_grid(o.0, o.1) {
                    self.tile(o.0, o.1) == are
                } else {
                    outok
                }
            }
    }

    /// A wall cell whose whole neighbourhood lies on the grid and is wall: a corridor may start
    /// there.
    pub open spec fn maze_seed(&self, c: (int, int)) -> bool {
        &&& self.in_grid(c.0, c.1)
        &&& self.tile(c.0, c.1) is Wall
        &&& self.neighbours_are(c, TileState::Wall, false)
    }

    /// The 2 x 2 square with top-left cell `(x, y)` is all open and holds a corridor cell.
    pub open spec fn open_corridor_square(&self, x: int, y: int) -> bool {
        &&& self.open_at(x, y) && self.open_at(x + 1, y) && self.open_at(x, y + 1) && self.open_at(x + 1, y + 1)
        &&& (self.tile(x, y) is Corridor || self.tile(x + 1, y) is Corridor || self.tile(x, y + 1) is Corridor
            || self.tile(x + 1, y + 1) is Corridor)
    }

    /// No corridor cell lies in a 2 x 2 square of open cells: corridors are one cell wide and
    /// do not open into rooms or other corridors sideways.
    pub open spec fn corridors_thin(&self) -> bool {
        forall|x: int, y: int| !#[trigger] self.open_corridor_square(x, y)
    }

    /// All four cells of the 2 x 2 square with top-left cell `(x, y)` belong to corridor `id`.
    pub open spec fn id_square(&self, x: int, y: int, id: u32) -> bool {
        &&& self.in_grid(x, y) && self.in_grid(x + 1, y + 1)
        &&& self.tile(x, y) == TileState::Corridor(id) && self.tile(x + 1, y) == TileState::Corridor(id)
        &&& self.tile(x, y + 1) == TileState::Corridor(id) && self.tile(x + 1, y + 1) == TileState::Corridor(id)
    }

    /// `c` lies on the grid and differs from `o` there.
    pub open spec fn carved_at(&self, o: &GridMap, c: (int, int)) -> bool {
        self.in_grid(c.0, c.1) && self.tile(c.0, c.1) != o.tile(c.0, c.1)
    }

    /// No straight neighbour of `c` could extend a corridor from `c`.
    #[verifier::opaque]
    pub open spec fn exhausted(&self, c: (int, int)) -> bool {
        forall|d: int| 0 <= d < 4 ==> !self.carvable(#[trigger] offset_cell(c, d), c, None)
    }

    /// `c` lies off the outer ring of the grid.
    pub open spec fn inner(&self, c: (int, int)) -> bool {
        1 <= c.0 < self.width_spec() - 1 && 1 <= c.1 < self.height_spec() - 1
    }

    /// Each cell changed from `o`, but `start`, has a changed straight neighbour of lower rank:
    /// following lower ranks leads to `start`, so the changed cells are 4-connected to it.
    #[verifier::opaque]
    pub open spec fn descends(&self, o: &GridMap, start: (int, int), rank: Map<(int, int), nat>) -> bool {
        &&& rank.contains_key(start)
        &&& forall|x: int, y: int|
            #![trigger self.tile(x, y)]
            self.carved_at(o, (x, y)) ==> rank.contains_key((x, y))
        &&& forall|x: int, y: int|
            #![trigger self.tile(x, y)]
            self.carved_at(o, (x, y)) && (x, y) != start ==> exists|d: int|
                0 <= d < 4 && self.carved_at(o, #[trigger] offset_cell((x, y), d)) && rank[offset_cell((x, y), d)]
                    < rank[(x, y)]
    }

    /// Every corridor cell of corridor `k` is the root `roots[k]` or has a straight neighbour of
    /// the same corridor with a lower rank: each corridor is one 4-connected region.
    #[verifier::opaque]
    pub open spec fn corridors_rooted(&self, rank: Map<(int, int), nat>, roots: Map<u32, (int, int)>) -> bool {
        forall|x: int, y: int|
            #![trigger self.tile(x, y)]
            self.in_grid(x, y) && self.tile(x, y) is Corridor ==> {
                let k = self.tile(x, y)->Corridor_0;
                &&& rank.contains_key((x, y))
                &&& roots.contains_key(k)
                &&& ((x, y) == roots[k] || exists|d: int|
                    0 <= d < 4 && self.in_grid(offset_cell((x, y), d).0, offset_cell((x, y), d).1)
                        && self.tile(#[trigger] offset_cell((x, y), d).0, offset_cell((x, y), d).1) == self.tile(x, y)
                        && rank.contains_key(offset_cell((x, y), d)) && rank[offset_cell((x, y), d)] < rank[(x, y)])
            }
    }

    /// Adding a corridor with a fresh id, grown from `start` as `descends` records, keeps every
    /// corridor rooted.
    proof fn lemma_rooted_add(
        &self,
        before: &GridMap,
        rank: Map<(int, int), nat>,
        roots: Map<u32, (int, int)>,
        rank_k: Map<(int, int), nat>,
        start: (int, int),
        id: u32,
    )
        requires
            before.wf(),
            self.same_shape(before),
            before.corridors_rooted(rank, roots),
            self.descends(before, start, rank_k),
            self.only_carved_from(before),
            forall|x: int, y: int|
                #![trigger self.tile(x, y)]
                self.carved_at(before, (x, y)) ==> self.tile(x, y) == TileState::Corridor(id),
            forall|x: int, y: int|
                #![trigger before.tile(x, y)]
                before.in_grid(x, y) ==> before.tile(x, y) != TileState::Corridor(id),
            self.carved_at(before, start),
        ensures
            self.corridors_rooted(
                rank.union_prefer_right(rank_k.restrict(Set::new(|c: (int, int)| self.carved_at(before, c)))),
                roots.insert(id, start),
            ),
    {
        reveal(GridMap::corridors_rooted);
        reveal(GridMap::descends);
        let carved = Set::new(|c: (int, int)| self.carved_at(before, c));
        let r2 = rank.union_prefer_right(rank_k.restrict(carved));
        let roots2 = roots.insert(id, start);
        assert forall|x: int, y: int|
            #![trigger self.tile(x, y)]
            self.in_grid(x, y) && self.tile(x, y) is Corridor implies {
                let k = self.tile(x, y)->Corridor_0;
                &&& r2.contains_key((x, y))
                &&& roots2.contains_key(k)
                &&& ((x, y) == roots2[k] || exists|d: int|
                    0 <= d < 4 && self.in_grid(offset_cell((x, y), d).0, offset_cell((x, y), d).1)
                        && self.tile(#[trigger] offset_cell((x, y), d).0, offset_cell((x, y), d).1) == self.tile(x, y)
                        && r2.contains_key(offset_cell((x, y), d)) && r2[offset_cell((x, y), d)] < r2[(x, y)])
            } by {
            if self.carved_at(before, (x, y)) {
                assert(carved.contains((x, y)));
                if (x, y) != start {
                    let d = choose|d: int|
                        0 <= d < 4 && self.carved_at(before, #[trigger] offset_cell((x, y), d))
                            && rank_k[offset_cell((x, y), d)] < rank_k[(x, y)];
                    let n = offset_cell((x, y), d);
                    assert(carved.contains(n));
                    assert(self.tile(n.0, n.1) == TileState::Corridor(id));
                }
            } else {
                assert(self.tile(x, y) == before.tile(x, y));
                assert(before.tile(x, y) is Corridor);
                let k = self.tile(x, y)->Corridor_0;
                assert(k != id);
                assert(!carved.contains((x, y)));
                if (x, y) != roots[k] {
                    let d = choose|d: int|
                        0 <= d < 4 && before.in_grid(offset_cell((x, y), d).0, offset_cell((x, y), d).1)
                            && before.tile(#[trigger] offset_cell((x, y), d).0, offset_cell((x, y), d).1) == before.tile(x, y)
                            && rank.contains_key(offset_cell((x, y), d)) && rank[offset_cell((x, y), d)] < rank[(x, y)];
                    let n = offset_cell((x, y), d);
                    assert(before.tile(n.0, n.1) is Corridor);
                    assert(self.tile(n.0, n.1) == before.tile(n.0, n.1));
                    assert(!carved.contains(n));
                }
            }
        }
    }

    /// Once exhausted, a cell stays so while walls become corridor cells elsewhere.
    pub proof fn lemma_exhausted_kept(&self, before: &GridMap, n: (int, int), c: (int, int), id: u32)
        requires
            before.wf(),
            before.exhausted(c),
            self.same_shape(before),
            before.in_grid(n.0, n.1),
            self.cells() == before.cells().update(n.0, before.cells()[n.0].update(n.1, TileState::Corridor(id))),
        ensures
            self.exhausted(c),
    {
        reveal(GridMap::exhausted);
        assert forall|d: int| 0 <= d < 4 implies !self.carvable(#[trigger] offset_cell(c, d), c, None) by {
            let m = offset_cell(c, d);
            if self.carvable(m, c, None) {
                assert forall|a: int, b: int| self.in_grid(a, b) && self.tile(a, b) is Wall implies before.tile(a, b)
                    is Wall by {
                    if a == n.0 {
                        assert(self.cells()[a] == before.cells()[n.0].update(n.1, TileState::Corridor(id)));
                        assert(b != n.1);
                    } else {
                        assert(self.cells()[a] == before.cells()[a]);
                    }
                }
                assert forall|k: int| 0 <= k < 8 implies {
                    let o = #[trigger] offset_cell(m, k);
                    before.in_grid(o.0, o.1) && (o == c || None::<(int, int)> == Some(o) || before.tile(o.0, o.1) is Wall)
                } by {
                    let o = offset_cell(m, k);
                    assert(self.in_grid(o.0, o.1));
                }
                assert(before.carvable(m, c, None));
            }
        }
    }

    /// Carving `n` next to `from`, or starting at a seed `n`, makes no square of corridor `id`.
    pub proof fn lemma_carve_no_id_square(
        &self,
        before: &GridMap,
        n: (int, int),
        from: (int, int),
        prev: Option<(int, int)>,
        id: u32,
    )
        requires
            before.wf(),
            forall|x: int, y: int| !#[trigger] before.id_square(x, y, id),
            before.carvable(n, from, prev) || before.maze_seed(n),
            self.same_shape(before),
            self.cells() == before.cells().update(n.0, before.cells()[n.0].update(n.1, TileState::Corridor(id))),
        ensures
            forall|x: int, y: int| !#[trigger] self.id_square(x, y, id),
    {
        let c0 = offset_cell(n, 0);
        let c1 = offset_cell(n, 1);
        let c2 = offset_cell(n, 2);
        let c3 = offset_cell(n, 3);
        let c4 = offset_cell(n, 4);
        let c5 = offset_cell(n, 5);
        let c6 = offset_cell(n, 6);
        let c7 = offset_cell(n, 7);
        assert forall|x: int, y: int| !#[trigger] self.id_square(x, y, id) by {
            let in_sq = |a: int, b: int| x <= a <= x + 1 && y <= b <= y + 1;
            if self.id_square(x, y, id) {
                assert forall|a: int, b: int| in_sq(a, b) && (a, b) != n implies before.tile(a, b) == self.tile(a, b)
                    && before.in_grid(a, b) by {
                    if a == n.0 {
                        assert(self.cells()[a] == before.cells()[n.0].update(n.1, TileState::Corridor(id)));
                    } else {
                        assert(self.cells()[a] == before.cells()[a]);
                    }
                }
                if in_sq(n.0, n.1) {
                    let others: Seq<(int, int)> = if x == n.0 && y == n.1 {
                        seq![c3, c1, c7]
                    } else if x + 1 == n.0 && y == n.1 {
                        seq![c2, c6, c1]
                    } else if x == n.0 && y + 1 == n.1 {
                        seq![c0, c5, c3]
                    } else {
                        seq![c4, c0, c2]
                    };
                    assert(before.tile(others[0].0, others[0].1) == TileState::Corridor(id));
                    assert(before.tile(others[1].0, others[1].1) == TileState::Corridor(id));
                    assert(before.tile(others[2].0, others[2].1) == TileState::Corridor(id));
                } else {
                    assert(before.id_square(x, y, id));
                }
            }
        }
    }

    /// Every change from `o` turns a wall into a corridor cell.
    pub open spec fn only_carved_from(&self, o: &GridMap) -> bool {
        forall|x: int, y: int|
            #![trigger self.tile(x, y)]
            self.in_grid(x, y) ==> self.tile(x, y) == o.tile(x, y) || (o.tile(x, y) is Wall
                && self.tile(x, y) is Corridor)
    }

    /// An exhausted cell stays so however many walls become corridor cells.
    pub proof fn lemma_exhausted_stays(&self, before: &GridMap, c: (int, int))
        requires
            before.wf(),
            before.exhausted(c),
            self.same_shape(before),
            self.only_carved_from(before),
        ensures
            self.exhausted(c),
    {
        reveal(GridMap::exhausted);
        assert forall|d: int| 0 <= d < 4 implies !self.carvable(#[trigger] offset_cell(c, d), c, None) by {
            let m = offset_cell(c, d);
            if self.carvable(m, c, None) {
                assert(self.tile(m.0, m.1) == before.tile(m.0, m.1));
                assert forall|k: int| 0 <= k < 8 implies {
                    let o = #[trigger] offset_cell(m, k);
                    before.in_grid(o.0, o.1) && (o == c || None::<(int, int)> == Some(o) || before.tile(o.0, o.1) is Wall)
                } by {
                    let o = offset_cell(m, k);
                    assert(self.in_grid(o.0, o.1));
                    if o != c {
                        assert(self.tile(o.0, o.1) == before.tile(o.0, o.1));
                    }
                }
                assert(before.carvable(m, c, None));
            }
        }
    }

    /// Carving `n` next to `from`, or starting a corridor at a seed `n`, keeps corridors thin:
    /// of the three other cells of any square around `n`, at most two are `from` and the cell
    /// before it, and the rest were walls.
    pub proof fn lemma_carve_keeps_thin(
        &self,
        before: &GridMap,
        n: (int, int),
        from: (int, int),
        prev: Option<(int, int)>,
        id: u32,
    )
        requires
            before.wf(),
            before.corridors_thin(),
            before.carvable(n, from, prev) || before.maze_seed(n),
            self.same_shape(before),
            self.cells() == before.cells().update(n.0, before.cells()[n.0].update(n.1, TileState::Corridor(id))),
        ensures
            self.corridors_thin(),
    {
        let c0 = offset_cell(n, 0);
        let c1 = offset_cell(n, 1);
        let c2 = offset_cell(n, 2);
        let c3 = offset_cell(n, 3);
        let c4 = offset_cell(n, 4);
        let c5 = offset_cell(n, 5);
        let c6 = offset_cell(n, 6);
        let c7 = offset_cell(n, 7);
        assert forall|x: int, y: int| !#[trigger] self.open_corridor_square(x, y) by {
            let in_sq = |a: int, b: int| x <= a <= x + 1 && y <= b <= y + 1;
            if in_sq(n.0, n.1) {
                if self.open_corridor_square(x, y) {
                    // The three other cells of the square, each an 8-neighbour of `n`.
                    let others: Seq<(int, int)> = if x == n.0 && y == n.1 {
                        seq![c3, c1, c7]
                    } else if x + 1 == n.0 && y == n.1 {
                        seq![c2, c6, c1]
                    } else if x == n.0 && y + 1 == n.1 {
                        seq![c0, c5, c3]
                    } else {
                        seq![c4, c0, c2]
                    };
                    assert forall|i: int| 0 <= i < 3 implies #[trigger] before.open_at(others[i].0, others[i].1) by {
                        let o = others[i];
                        assert(o != n);
                        assert(self.open_at(o.0, o.1));
                        if o.0 == n.0 {
                            assert(self.cells()[o.0] == before.cells()[n.0].update(n.1, TileState::Corridor(id)));
                        } else {
                            assert(self.cells()[o.0] == before.cells()[o.0]);
                        }
                    }
                    assert(before.open_at(others[0].0, others[0].1));
                    assert(before.open_at(others[1].0, others[1].1));
                    assert(before.open_at(others[2].0, others[2].1));
                }
            } else {
                assert forall|a: int, b: int| in_sq(a, b) && before.in_grid(a, b) implies self.tile(a, b) == before.tile(
                    a,
                    b,
                ) by {
                    if a == n.0 {
                        assert(b != n.1);
                        assert(self.cells()[a] == before.cells()[n.0].update(n.1, TileState::Corridor(id)));
                    } else {
                        assert(self.cells()[a] == before.cells()[a]);
                    }
                }
                assert(!before.open_corridor_square(x, y));
            }
        }
    }

    pub fn check_neighbours(&self, x: usize, y: usize, are: TileState, outok: bool) -> (r: bool)
        requires
            self.wf(),
            self.in_grid(x as int, y as int),
        ensures
            r == self.neighbours_are((x as int, y as int), are, outok),
    {
        let mut k: usize = 0;
        while k < 8
            invariant
                self.wf(),
                self.in_grid(x as int, y as int),
                k <= 8,
                forall|j: int|
                    0 <= j < k ==> {
                        let o = #[trigger] offset_cell((x as int, y as int), j);
                        if self.in_grid(o.0, o.1) {
                            self.tile(o.0, o.1) == are
                        } else {
                            outok
                        }
                    },
            decreases 8 - k,
        {
            match self.resolve_neighbour(x, y, k) {
                Some((nx, ny)) => {
                    if self.tile_at(nx, ny) != are {
                        proof {
                            let _ = offset_cell((x as int, y as int), k as int);
                        }
                        return false;
                    }
                },
                None => {
                    if !outok {
                        proof {
                            let _ = offset_cell((x as int, y as int), k as int);
                        }
                        return false;
                    }
                },
            }
            k += 1;
        }
        true
    }

    pub fn is_carvable(&self, n: (usize, usize), from: (usize, usize), prev: Option<(usize, usize)>) -> (r:
        bool)
        requires
            self.wf(),
            self.in_grid(n.0 as int, n.1 as int),
        ensures
            r == self.carvable(pos(n), pos(from), opt_pos(prev)),
    {
        if self.tile_at(n.0, n.1) != TileState::Wall {
            return false;
        }
        let mut k: usize = 0;
        while k < 8
            invariant
                self.wf(),
                self.in_grid(n.0 as int, n.1 as int),
                k <= 8,
                forall|j: int|
                    0 <= j < k ==> {
                        let o = #[trigger] offset_cell(pos(n), j);
                        self.in_grid(o.0, o.1) && (o == pos(from) || opt_pos(prev) == Some(o)
                            || self.tile(o.0, o.1) is Wall)
                    },
            decreases 8 - k,
        {
            let ghost o = offset_cell(pos(n), k as int);
            match self.resolve_neighbour(n.0, n.1, k) {
                Some(other) => {
                    let skip = (other.0 == from.0 && other.1 == from.1) || match prev {
                        Some(p) => other.0 == p.0 && other.1 == p.1,
                        None => false,
                    };
                    if !skip && !self.tile_at(other.0, other.1).is_wall() {
                        return false;
                    }
                },
                None => {
                    return false;
                },
            }
            k += 1;
        }
        true
    }

    /// The first of the four straight neighbours of `cur`, tried in the order given by `order`
    /// rotated to start at `start_i`, that can extend the corridor; with the rotated index that
    /// found it.
    pub fn next_cell(
        &self,
        cur: (usize, usize),
        order: &Vec<usize>,
        start_i: usize,
        prev: Option<(usize, usize)>,
    ) -> (r: Option<((usize, usize), usize)>)
        requires
            self.wf(),
            self.in_grid(cur.0 as int, cur.1 as int),
            straight_dirs(order@),
            start_i < 4,
        ensures
            r is None ==> forall|i: int|
                0 <= i < 4 ==> !self.carvable(
                    #[trigger] rotated_candidate(pos(cur), order@, start_i as int, i),
                    pos(cur),
                    opt_pos(prev),
                ),
            r is Some ==> exists|i: int|
                0 <= i < 4 && r == Some(
                    (
                        (
                            rotated_candidate(pos(cur), order@, start_i as int, i).0 as usize,
                            rotated_candidate(pos(cur), order@, start_i as int, i).1 as usize,
                        ),
                        ((start_i + i) % 4) as usize,
                    ),
                ) && self.carvable(
                    rotated_candidate(pos(cur), order@, start_i as int, i),
                    pos(cur),
                    opt_pos(prev),
                ) && forall|j: int|
                    0 <= j < i ==> !self.carvable(
                        #[trigger] rotated_candidate(pos(cur), order@, start_i as int, j),
                        pos(cur),
                        opt_pos(prev),
                    ),
    {
        let mut i: usize = 0;
        while i < 4
            invariant
                self.wf(),
                self.in_grid(cur.0 as int, cur.1 as int),
                straight_dirs(order@),
                start_i < 4,
                i <= 4,
                forall|j: int|
                    0 <= j < i ==> !self.carvable(
                        #[trigger] rotated_candidate(pos(cur), order@, start_i as int, j),
                        pos(cur),
                        opt_pos(prev),
                    ),
            decreases 4 - i,
        {
            let idx = (start_i + i) % 4;
            let d = order[idx];
            let ghost c = rotated_candidate(pos(cur), order@, start_i as int, i as int);
            match self.resolve_neighbour(cur.0, cur.1, d) {
                Some(n) => {
                    if self.is_carvable(n, cur, prev) {
                        return Some((n, idx));
                    }
                },
                None => {},
            }
            i += 1;
        }
        None
    }

    /// One carving step keeps what the growth loop maintains: the new cell is carved, ranked one
    /// above the cell it grew from, and every carved cell is the new one, on the stack with the
    /// old current cell, or exhausted.
    proof fn lemma_carve_step(
        &self,
        before: &GridMap,
        orig: &GridMap,
        start: (int, int),
        cur: (usize, usize),
        n: (int, int),
        dd: int,
        prev: Option<(int, int)>,
        bt0: Seq<(usize, usize)>,
        r0: Map<(int, int), nat>,
        id: u32,
        seeded: bool,
    )
        requires
            orig.wf(),
            before.wf(),
            before.same_shape(orig),
            self.same_shape(before),
            self.cells() == before.cells().update(n.0, before.cells()[n.0].update(n.1, TileState::Corridor(id))),
            before.carvable(n, pos(cur), prev),
            0 <= dd < 4,
            n == offset_cell(pos(cur), dd),
            before.carved_at(orig, pos(cur)),
            forall|k: int| 0 <= k < bt0.len() ==> before.carved_at(orig, pos(#[trigger] bt0[k])),
            forall|x: int, y: int|
                #![trigger before.tile(x, y)]
                before.carved_at(orig, (x, y)) ==> before.tile(x, y) == TileState::Corridor(id),
            forall|x: int, y: int|
                #![trigger before.tile(x, y)]
                before.carved_at(orig, (x, y)) ==> (x, y) == pos(cur) || on_stack(bt0, (x, y))
                    || before.exhausted((x, y)),
            before.descends(orig, start, r0),
            seeded ==> forall|x: int, y: int|
                #![trigger before.tile(x, y)]
                before.carved_at(orig, (x, y)) ==> before.inner((x, y)),
        ensures
            self.carved_at(orig, n),
            forall|k: int| 0 <= k < bt0.len() + 1 ==> self.carved_at(orig, pos(#[trigger] bt0.push(cur)[k])),
            forall|x: int, y: int|
                #![trigger self.tile(x, y)]
                self.carved_at(orig, (x, y)) ==> (x, y) == n || on_stack(bt0.push(cur), (x, y))
                    || self.exhausted((x, y)),
            self.descends(orig, start, r0.insert(n, r0[pos(cur)] + 1)),
            seeded ==> forall|x: int, y: int|
                #![trigger self.tile(x, y)]
                self.carved_at(orig, (x, y)) ==> self.inner((x, y)),
    {
        reveal(GridMap::descends);
        assert(before.tile(n.0, n.1) is Wall);
        assert(!before.carved_at(orig, n));
        let _ = offset_cell(n, 4);
        let _ = offset_cell(n, 7);
        assert forall|x: int, y: int|
            before.in_grid(x, y) implies #[trigger] before.tile(x, y) == self.tile(x, y) || (x, y)
                == n by {
            if x == n.0 {
                assert(self.cells()[x] == before.cells()[x].update(n.1, TileState::Corridor(id)));
            } else {
                assert(self.cells()[x] == before.cells()[x]);
            }
        }
        assert forall|x: int, y: int|
            #![trigger self.tile(x, y)]
            self.carved_at(orig, (x, y)) && (x, y) != n ==> before.carved_at(orig, (x, y)) by {
            if self.carved_at(orig, (x, y)) && (x, y) != n {
                assert(before.in_grid(x, y));
                assert(before.tile(x, y) == self.tile(x, y) || (x, y) == n);
            }
        }
        assert(!before.carved_at(orig, n));
        // Ranks: the new cell is one above the cell it was carved from.
        let nr = r0[pos(cur)] + 1;
        let rank = r0.insert(n, nr);
        assert(offset_cell(n, opposite(dd)) == pos(cur));
        assert forall|x: int, y: int|
            #![trigger self.tile(x, y)]
            self.carved_at(orig, (x, y)) implies rank.contains_key((x, y)) by {
            if (x, y) != n {
                assert(before.carved_at(orig, (x, y)));
                assert(before.tile(x, y) == self.tile(x, y));
            }
        }
        assert forall|x: int, y: int|
            #![trigger self.tile(x, y)]
            self.carved_at(orig, (x, y)) && (x, y) != start implies exists|d: int|
                0 <= d < 4 && self.carved_at(orig, #[trigger] offset_cell((x, y), d))
                    && rank[offset_cell((x, y), d)] < rank[(x, y)] by {
            if (x, y) == n {
                let d = opposite(dd);
                assert(self.carved_at(orig, offset_cell((x, y), d)));
            } else {
                assert(before.carved_at(orig, (x, y)));
                assert(before.tile(x, y) == self.tile(x, y));
                let d = choose|d: int|
                    0 <= d < 4 && before.carved_at(orig, #[trigger] offset_cell((x, y), d))
                        && r0[offset_cell((x, y), d)] < r0[(x, y)];
                let m = offset_cell((x, y), d);
                assert(m != n);
                assert(before.tile(m.0, m.1) == self.tile(m.0, m.1));
                assert(self.carved_at(orig, m));
            }
        }
        assert(self.descends(orig, start, rank));
        // Coverage: the old current cell goes on the stack.
        assert forall|x: int, y: int|
            #![trigger self.tile(x, y)]
            self.carved_at(orig, (x, y)) implies (x, y) == n || on_stack(
                bt0.push(cur),
                (x, y),
            ) || self.exhausted((x, y)) by {
            if (x, y) != n {
                assert(before.carved_at(orig, (x, y)));
                assert(before.tile(x, y) == self.tile(x, y));
                if (x, y) == pos(cur) {
                    assert(pos(bt0.push(cur)[bt0.len() as int]) == (x, y));
                } else if on_stack(bt0, (x, y)) {
                    let k = choose|k: int| 0 <= k < bt0.len() && #[trigger] pos(bt0[k]) == (x, y);
                    assert(pos(bt0.push(cur)[k]) == (x, y));
                } else {
                    self.lemma_exhausted_kept(before, n, (x, y), id);
                }
            }
        }
        assert forall|k: int| 0 <= k < bt0.len() + 1 implies self.carved_at(
            orig,
            pos(#[trigger] bt0.push(cur)[k]),
        ) by {
            let c = pos(bt0.push(cur)[k]);
            if k < bt0.len() {
                assert(before.carved_at(orig, pos(bt0[k])));
            }
            assert(before.tile(c.0, c.1) == self.tile(c.0, c.1) || c == n);
        }
        assert(self.tile(n.0, n.1) == TileState::Corridor(id));
        if seeded {
            assert forall|x: int, y: int|
                #![trigger self.tile(x, y)]
                self.carved_at(orig, (x, y)) implies self.inner((x, y)) by {
                if (x, y) != n {
                    assert(before.tile(x, y) == self.tile(x, y));
                    assert(before.carved_at(orig, (x, y)));
                }
            }
        }
    }

    /// When no candidate around `cur` can be carved, whatever the cell before it, `cur` is
    /// exhausted: the candidates cover all four straight neighbours.
    proof fn lemma_none_exhausted(&self, cur: (usize, usize), order: Seq<usize>, ni: int, prev: Option<(int, int)>)
        requires
            all_dirs(order),
            0 <= ni < 4,
            forall|i: int|
                0 <= i < 4 ==> !self.carvable(#[trigger] rotated_candidate(pos(cur), order, ni, i), pos(cur), prev),
        ensures
            self.exhausted(pos(cur)),
    {
        reveal(GridMap::exhausted);
        assert forall|d: int| 0 <= d < 4 implies !self.carvable(#[trigger] offset_cell(pos(cur), d), pos(cur), None) by {
            assert(order.contains(d as usize));
            let j = choose|j: int| 0 <= j < order.len() && order[j] == d as usize;
            let i: int = if j >= ni {
                j - ni
            } else {
                j + 4 - ni
            };
            assert((ni + i) % 4 == j);
            assert(rotated_candidate(pos(cur), order, ni, i) == offset_cell(pos(cur), d));
            assert(!self.carvable(rotated_candidate(pos(cur), order, ni, i), pos(cur), prev));
        }
    }

    /// Backtracking from an exhausted cell to the top of the stack keeps the cover of carved
    /// cells by the current cell, the stack and the exhausted cells.
    proof fn lemma_pop_step(&self, orig: &GridMap, cur0: (usize, usize), bt0: Seq<(usize, usize)>, bt1: Seq<(usize, usize)>, p: (usize, usize))
        requires
            bt0 == bt1.push(p),
            self.exhausted(pos(cur0)),
            forall|k: int| 0 <= k < bt0.len() ==> self.carved_at(orig, pos(#[trigger] bt0[k])),
            forall|x: int, y: int|
                #![trigger self.tile(x, y)]
                self.carved_at(orig, (x, y)) ==> (x, y) == pos(cur0) || on_stack(bt0, (x, y))
                    || self.exhausted((x, y)),
        ensures
            self.carved_at(orig, pos(p)),
            forall|k: int| 0 <= k < bt1.len() ==> self.carved_at(orig, pos(#[trigger] bt1[k])),
            forall|x: int, y: int|
                #![trigger self.tile(x, y)]
                self.carved_at(orig, (x, y)) ==> (x, y) == pos(p) || on_stack(bt1, (x, y))
                    || self.exhausted((x, y)),
    {
        assert(bt0[bt0.len() - 1] == p);
        assert forall|k: int| 0 <= k < bt1.len() implies self.carved_at(orig, pos(#[trigger] bt1[k])) by {
            assert(bt1[k] == bt0[k]);
        }
        assert forall|x: int, y: int|
            #![trigger self.tile(x, y)]
            self.carved_at(orig, (x, y)) implies (x, y) == pos(p) || on_stack(bt1, (x, y)) || self.exhausted((x, y)) by {
            if (x, y) != pos(cur0) && on_stack(bt0, (x, y)) {
                let k = choose|k: int| 0 <= k < bt0.len() && #[trigger] pos(bt0[k]) == (x, y);
                if k < bt0.len() - 1 {
                    assert(bt1[k] == bt0[k]);
                }
            }
        }
    }

    /// Grows one corridor with id `corridor_id` from `start` by a randomised depth-first walk
    /// with backtracking. The walk keeps going in the direction it last took unless a turn,
    /// drawn with chance `turn_chance` thousandths per step, reshuffles `order`.
    #[verifier::rlimit(100)]
    #[verifier::spinoff_prover]
    pub fn fill_maze_from(
        &mut self,
        start: (usize, usize),
        corridor_id: u32,
        order: &mut Vec<usize>,
        turn_chance: u32,
        rng: &mut rand::rngs::StdRng,
    )
        requires
            old(self).wf(),
            old(self).in_grid(start.0 as int, start.1 as int),
            old(self).tile(start.0 as int, start.1 as int) is Wall,
            all_dirs(old(order)@),
        ensures
            final(self).wf(),
            final(self).same_shape(old(self)),
            final(self).same_records(old(self)),
            final(self).only_carved_from(old(self)),
            final(self).tile(start.0 as int, start.1 as int) == TileState::Corridor(corridor_id),
            forall|x: int, y: int|
                #![trigger final(self).tile(x, y)]
                final(self).in_grid(x, y) && final(self).tile(x, y) != old(self).tile(x, y)
                    ==> final(self).tile(x, y) == TileState::Corridor(corridor_id),
            final(self).open_count() > old(self).open_count(),
            all_dirs(final(order)@),
            old(self).maze_seed(pos(start)) && old(self).corridors_thin() ==> final(self).corridors_thin(),
            forall|x: int, y: int|
                #![trigger final(self).tile(x, y)]
                final(self).carved_at(old(self), (x, y)) ==> final(self).exhausted((x, y)),
            exists|rank: Map<(int, int), nat>| #[trigger] final(self).descends(old(self), pos(start), rank),
            old(self).maze_seed(pos(start)) ==> forall|x: int, y: int|
                #![trigger final(self).tile(x, y)]
                final(self).carved_at(old(self), (x, y)) ==> final(self).inner((x, y)),
            old(self).maze_seed(pos(start)) && (forall|x: int, y: int|
                #![trigger old(self).tile(x, y)]
                old(self).in_grid(x, y) ==> old(self).tile(x, y) != TileState::Corridor(corridor_id))
                ==> forall|x: int, y: int| !#[trigger] final(self).id_square(x, y, corridor_id),
    {
        let ghost orig = *self;
        let ghost thin = orig.maze_seed(pos(start)) && orig.corridors_thin();
        let ghost seeded = orig.maze_seed(pos(start));
        let ghost fresh_id = orig.maze_seed(pos(start)) && (forall|x: int, y: int|
            #![trigger orig.tile(x, y)]
            orig.in_grid(x, y) ==> orig.tile(x, y) != TileState::Corridor(corridor_id));
        let new_state = TileState::Corridor(corridor_id);
        self.set_tile(start.0, start.1, new_state);
        let ghost mut rank: Map<(int, int), nat> = map![pos(start) => 0nat];
        proof {
            if thin {
                self.lemma_carve_keeps_thin(&orig, pos(start), pos(start), None, corridor_id);
            }
            if fresh_id {
                assert forall|x: int, y: int| !#[trigger] orig.id_square(x, y, corridor_id) by {}
                self.lemma_carve_no_id_square(&orig, pos(start), pos(start), None, corridor_id);
            }
            assert forall|x: int, y: int|
                #![trigger self.tile(x, y)]
                self.carved_at(&orig, (x, y)) implies (x, y) == pos(start) by {
                if x == start.0 {
                    assert(self.cells()[x] == orig.cells()[x].update(start.1 as int, new_state));
                } else {
                    assert(self.cells()[x] == orig.cells()[x]);
                }
            }
            reveal(GridMap::descends);
            assert(self.descends(&orig, pos(start), rank));
            if seeded {
                let _ = offset_cell(pos(start), 4);
                let _ = offset_cell(pos(start), 7);
            }
        }
        let mut backtrack: Vec<(usize, usize)> = Vec::new();
        let mut neighbour_i: usize = 0;
        let mut current = start;
        proof {
            self.lemma_open_count_bound();
        }
        loop
            invariant
                self.wf(),
                self.same_shape(&orig),
                self.same_records(&orig),
                self.only_carved_from(&orig),
                self.in_grid(start.0 as int, start.1 as int),
                self.tile(start.0 as int, start.1 as int) == new_state,
                forall|x: int, y: int|
                    #![trigger self.tile(x, y)]
                    self.in_grid(x, y) && self.tile(x, y) != orig.tile(x, y) ==> self.tile(x, y)
                        == new_state,
                self.open_count() > orig.open_count(),
                self.open_count() <= MAX_SIDE * MAX_SIDE,
                self.in_grid(current.0 as int, current.1 as int),
                forall|k: int|
                    0 <= k < backtrack@.len() ==> self.in_grid(
                        (#[trigger] backtrack@[k]).0 as int,
                        backtrack@[k].1 as int,
                    ),
                all_dirs(order@),
                neighbour_i < 4,
                new_state == TileState::Corridor(corridor_id),
                thin ==> self.corridors_thin(),
                thin == (orig.maze_seed(pos(start)) && orig.corridors_thin()),
                orig.wf(),
                self.carved_at(&orig, pos(current)),
                forall|k: int| 0 <= k < backtrack@.len() ==> self.carved_at(&orig, pos(#[trigger] backtrack@[k])),
                forall|x: int, y: int|
                    #![trigger self.tile(x, y)]
                    self.carved_at(&orig, (x, y)) ==> (x, y) == pos(current) || on_stack(backtrack@, (x, y))
                        || self.exhausted((x, y)),
                self.descends(&orig, pos(start), rank),
                seeded == orig.maze_seed(pos(start)),
                seeded ==> forall|x: int, y: int|
                    #![trigger self.tile(x, y)]
                    self.carved_at(&orig, (x, y)) ==> self.inner((x, y)),
                fresh_id ==> forall|x: int, y: int| !#[trigger] self.id_square(x, y, corridor_id),
                fresh_id ==> seeded,
            ensures
                forall|x: int, y: int|
                    #![trigger self.tile(x, y)]
                    self.carved_at(&orig, (x, y)) ==> self.exhausted((x, y)),
            decreases MAX_SIDE * MAX_SIDE - self.open_count(), backtrack@.len(),
        {
            if random_below(rng, 0, PER_MILLE as usize) < turn_chance as usize {
                let ghost before = order@;
                shuffle_in_place(order, rng);
                proof {
                    lemma_permutation_elements(order@, before);
                    assert forall|i: int| 0 <= i < 4 implies #[trigger] order@[i] < 4 by {
                        assert(order@.contains(order@[i]));
                        assert(before.contains(order@[i]));
                    }
                    assert forall|d: usize| d < 4 implies #[trigger] order@.contains(d) by {
                        assert(before.contains(d));
                    }
                }
            }
            let prev = if backtrack.len() > 0 {
                Some(backtrack[backtrack.len() - 1])
            } else {
                None
            };
            match self.next_cell(current, order, neighbour_i, prev) {
                Some((next, idx)) => {
                    let ghost before = *self;
                    let ghost bt0 = backtrack@;
                    let ghost dd = order@[idx as int] as int;
                    self.set_tile(next.0, next.1, new_state);
                    proof {
                        assert(before.carvable(pos(next), pos(current), opt_pos(prev)));
                        assert(pos(next) == offset_cell(pos(current), dd));
                        if thin {
                            self.lemma_carve_keeps_thin(&before, pos(next), pos(current), opt_pos(prev), corridor_id);
                        }
                        if fresh_id {
                            self.lemma_carve_no_id_square(&before, pos(next), pos(current), opt_pos(prev), corridor_id);
                        }
                        let r0 = rank;
                        self.lemma_carve_step(&before, &orig, pos(start), current, pos(next), dd, opt_pos(prev), bt0, r0, corridor_id, seeded);
                        rank = r0.insert(pos(next), r0[pos(current)] + 1);
                        self.lemma_open_count_bound();
                        assert(before.tile(next.0 as int, next.1 as int) is Wall);
                        assert(before.tile(start.0 as int, start.1 as int) == new_state);
                        if start.0 == next.0 {
                            assert(start.1 != next.1);
                            assert(self.cells()[start.0 as int] == before.cells()[start.0 as int].update(
                                next.1 as int,
                                new_state,
                            ));
                        } else {
                            assert(self.cells()[start.0 as int] == before.cells()[start.0 as int]);
                        }
                        assert(self.tile(start.0 as int, start.1 as int) == new_state);
                        assert forall|x: int, y: int|
                            #![trigger self.tile(x, y)]
                            self.in_grid(x, y) implies self.tile(x, y) == orig.tile(x, y) || (
                            orig.tile(x, y) is Wall && self.tile(x, y) is Corridor) by {
                            if x == next.0 && y == next.1 {
                                assert(before.tile(x, y) is Wall);
                            } else {
                                assert(self.tile(x, y) == before.tile(x, y));
                            }
                        }
                        assert forall|x: int, y: int|
                            #![trigger self.tile(x, y)]
                            self.in_grid(x, y) && self.tile(x, y) != orig.tile(x, y) implies self.tile(
                                x,
                                y,
                            ) == new_state by {
                            if !(x == next.0 && y == next.1) {
                                assert(self.tile(x, y) == before.tile(x, y));
                            }
                        }
                    }
                    backtrack.push(current);
                    current = next;
                    neighbour_i = idx;
                },
                None => {
                    proof {
                        self.lemma_none_exhausted(current, order@, neighbour_i as int, opt_pos(prev));
                    }
                    let ghost bt0 = backtrack@;
                    let ghost cur0 = current;
                    match backtrack.pop() {
                        Some(p) => {
                            current = p;
                            proof {
                                assert(bt0 =~= backtrack@.push(p));
                                self.lemma_pop_step(&orig, cur0, bt0, backtrack@, p);
                            }
                        },
                        None => {
                            proof {
                                assert forall|x: int, y: int|
                                    #![trigger self.tile(x, y)]
                                    self.carved_at(&orig, (x, y)) implies self.exhausted((x, y)) by {
                                    if on_stack(bt0, (x, y)) {
                                        let k = choose|k: int| 0 <= k < bt0.len() && #[trigger] pos(bt0[k]) == (x, y);
                                    }
                                }
                            }
                            break ;
                        },
                    }
                },
            }
        }
        proof {
            assert(self.descends(&orig, pos(start), rank));
        }
    }

    /// The first cell, scanning `x` then `y`, from which a corridor may start.
    pub fn find_maze_seed(&self) -> (r: Option<(usize, usize)>)
        requires
            self.wf(),
        ensures
            r matches Some(c) ==> self.maze_seed(pos(c)),
            r is None ==> forall|x: int, y: int| !#[trigger] self.maze_seed((x, y)),
    {
        let w = self.width() as usize;
        let h = self.height() as usize;
        let mut x: usize = 0;
        while x < w
            invariant
                self.wf(),
                w == self.width_spec(),
                h == self.height_spec(),
                x <= w,
                forall|a: int, b: int| 0 <= a < x ==> !#[trigger] self.maze_seed((a, b)),
            decreases w - x,
        {
            let mut y: usize = 0;
            while y < h
                invariant
                    self.wf(),
                    w == self.width_spec(),
                    h == self.height_spec(),
                    x < w,
                    y <= h,
                    forall|a: int, b: int| 0 <= a < x ==> !#[trigger] self.maze_seed((a, b)),
                    forall|b: int| 0 <= b < y ==> !#[trigger] self.maze_seed((x as int, b)),
                decreases h - y,
            {
                if self.tile_at(x, y).is_wall() && self.check_neighbours(x, y, TileState::Wall, false) {
                    return Some((x, y));
                }
                y += 1;
            }
            x += 1;
        }
        None
    }

    /// Fills the free space with corridors: while some cell may start one, grows a corridor with
    /// a fresh id from the first such cell.
    pub fn fill_maze(&mut self, turn_chance: u32, rng: &mut rand::rngs::StdRng)
        requires
            old(self).wf(),
        ensures
            final(self).wf(),
            final(self).same_shape(old(self)),
            final(self).same_records(old(self)),
            final(self).only_carved_from(old(self)),
            forall|x: int, y: int| !#[trigger] final(self).maze_seed((x, y)),
            old(self).corridors_thin() ==> final(self).corridors_thin(),
            forall|x: int, y: int|
                #![trigger final(self).tile(x, y)]
                final(self).carved_at(old(self), (x, y)) ==> final(self).exhausted((x, y)) && final(self).inner((x, y)),
            (forall|x: int, y: int|
                #![trigger old(self).tile(x, y)]
                old(self).in_grid(x, y) ==> !(old(self).tile(x, y) is Corridor)) ==> exists|
                rank: Map<(int, int), nat>,
                roots: Map<u32, (int, int)>,
            | #[trigger] final(self).corridors_rooted(rank, roots),
    {
        let ghost orig = *self;
        let ghost noc = forall|x: int, y: int|
            #![trigger orig.tile(x, y)]
            orig.in_grid(x, y) ==> !(orig.tile(x, y) is Corridor);
        let ghost mut rank: Map<(int, int), nat> = Map::empty();
        let ghost mut roots: Map<u32, (int, int)> = Map::empty();
        proof {
            reveal(GridMap::corridors_rooted);
        }
        let mut order: Vec<usize> = vec![0, 1, 2, 3];
        proof {
            assert forall|d: usize| d < 4 implies #[trigger] order@.contains(d) by {
                assert(order@[d as int] == d);
            }
        }
        let mut corridor_id: u32 = 0;
        proof {
            self.lemma_open_count_bound();
        }
        loop
            invariant
                self.wf(),
                self.same_shape(&orig),
                self.same_records(&orig),
                self.only_carved_from(&orig),
                all_dirs(order@),
                corridor_id as int + orig.open_count() <= self.open_count(),
                self.open_count() <= MAX_SIDE * MAX_SIDE,
                orig.corridors_thin() ==> self.corridors_thin(),
                forall|x: int, y: int|
                    #![trigger self.tile(x, y)]
                    self.carved_at(&orig, (x, y)) ==> self.exhausted((x, y)) && self.inner((x, y)),
                noc == (forall|x: int, y: int|
                    #![trigger orig.tile(x, y)]
                    orig.in_grid(x, y) ==> !(orig.tile(x, y) is Corridor)),
                noc ==> self.corridors_rooted(rank, roots),
                noc ==> forall|x: int, y: int|
                    #![trigger self.tile(x, y)]
                    self.in_grid(x, y) && self.tile(x, y) is Corridor ==> self.tile(x, y)->Corridor_0 < corridor_id,
            ensures
                forall|x: int, y: int| !#[trigger] self.maze_seed((x, y)),
            decreases MAX_SIDE * MAX_SIDE - self.open_count(),
        {
            match self.find_maze_seed() {
                Some(c) => {
                    let ghost before = *self;
                    self.fill_maze_from(c, corridor_id, &mut order, turn_chance, rng);
                    proof {
                        self.lemma_open_count_bound();
                        assert forall|x: int, y: int|
                            #![trigger self.tile(x, y)]
                            self.in_grid(x, y) implies self.tile(x, y) == orig.tile(x, y) || (
                            orig.tile(x, y) is Wall && self.tile(x, y) is Corridor) by {
                            assert(self.tile(x, y) == before.tile(x, y) || (before.tile(x, y) is Wall
                                && self.tile(x, y) is Corridor));
                            assert(before.tile(x, y) == orig.tile(x, y) || (orig.tile(x, y) is Wall
                                && before.tile(x, y) is Corridor));
                        }
                        assert forall|x: int, y: int|
                            #![trigger self.tile(x, y)]
                            self.carved_at(&orig, (x, y)) implies self.exhausted((x, y)) && self.inner((x, y)) by {
                            if before.carved_at(&orig, (x, y)) {
                                self.lemma_exhausted_stays(&before, (x, y));
                            } else {
                                assert(self.carved_at(&before, (x, y)));
                            }
                        }
                        if noc {
                            let rank_k = choose|rk: Map<(int, int), nat>| #[trigger] self.descends(&before, pos(c), rk);
                            assert(self.carved_at(&before, pos(c)));
                            assert forall|x: int, y: int|
                                #![trigger before.tile(x, y)]
                                before.in_grid(x, y) implies before.tile(x, y) != TileState::Corridor(corridor_id) by {
                                if before.tile(x, y) is Corridor {
                                    assert(before.tile(x, y)->Corridor_0 < corridor_id);
                                }
                            }
                            self.lemma_rooted_add(&before, rank, roots, rank_k, pos(c), corridor_id);
                            rank = rank.union_prefer_right(
                                rank_k.restrict(Set::new(|p: (int, int)| self.carved_at(&before, p))),
                            );
                            roots = roots.insert(corridor_id, pos(c));
                            assert forall|x: int, y: int|
                                #![trigger self.tile(x, y)]
                                self.in_grid(x, y) && self.tile(x, y) is Corridor implies self.tile(x, y)->Corridor_0
                                    < corridor_id + 1 by {
                                if self.tile(x, y) == before.tile(x, y) {
                                    assert(before.tile(x, y)->Corridor_0 < corridor_id);
                                }
                            }
                        }
                    }
                    corridor_id += 1;
                },
                None => {
                    break ;
                },
            }
        }
        proof {
            if noc {
                assert(self.corridors_rooted(rank, roots));
            }
        }
    }
}

} // verus!

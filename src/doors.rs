use vstd::prelude::*;
use crate::grid::{GridMap, TileState};
use crate::maze::pos;
use crate::rng::{shuffle_in_place, lemma_permutation_elements};
use crate::config::PER_MILLE;

verus! {

/// Two tiles on either side of a wall that a door between them would join: a room and a
/// corridor, or two different rooms, or two different corridors.
pub open spec fn separates_regions(a: TileState, b: TileState) -> bool {
    match (a, b) {
        (TileState::Corridor(_), TileState::Room(_)) => true,
        (TileState::Room(_), TileState::Corridor(_)) => true,
        (TileState::Corridor(i), TileState::Corridor(j)) => i != j,
        (TileState::Room(i), TileState::Room(j)) => i != j,
        _ => false,
    }
}

pub fn is_door_pair(a: TileState, b: TileState) -> (r: bool)
    ensures
        r == separates_regions(a, b),
{
    match (a, b) {
        (TileState::Corridor(_), TileState::Room(_)) => true,
        (TileState::Room(_), TileState::Corridor(_)) => true,
        (TileState::Corridor(i), TileState::Corridor(j)) => i != j,
        (TileState::Room(i), TileState::Room(j)) => i != j,
        _ => false,
    }
}

/// A wall cell that could become a door, with the tiles on its two sides.
#[derive(Debug, Clone, Copy)]
pub struct Door {
    pub index: (usize, usize),
    pub separates: (TileState, TileState),
}

/// Doors are equal when they join the same two tiles, in either order.
pub open spec fn same_pair(a: Door, b: Door) -> bool {
    (a.separates.0 == b.separates.0 && a.separates.1 == b.separates.1) || (a.separates.0
        == b.separates.1 && a.separates.1 == b.separates.0)
}

/// How many doors of `r` join a pair of tiles that an earlier door of `r` already joins.
pub open spec fn repeats(r: Seq<Door>) -> nat
    decreases r.len(),
{
    if r.len() == 0 {
        0
    } else {
        repeats(r.drop_last()) + if served(r.drop_last(), r.last()) {
            1nat
        } else {
            0nat
        }
    }
}

/// Some door of `doors` joins the same pair of tiles as `d`.
pub open spec fn served(doors: Seq<Door>, d: Door) -> bool {
    exists|k: int| 0 <= k < doors.len() && #[trigger] same_pair(d, doors[k])
}

impl PartialEq for Door {
    fn eq(&self, other: &Self) -> (r: bool) {
        (self.separates.0 == other.separates.0 && self.separates.1 == other.separates.1) || (
        self.separates.0 == other.separates.1 && self.separates.1 == other.separates.0)
    }
}

impl vstd::std_specs::cmp::PartialEqSpecImpl for Door {
    open spec fn obeys_eq_spec() -> bool {
        true
    }

    open spec fn eq_spec(&self, other: &Door) -> bool {
        same_pair(*self, *other)
    }
}

impl GridMap {
    /// The tiles left and right of `c`, or above and below it, lie on the grid and would be
    /// joined by a door at `c`.
    pub open spec fn joins_regions(&self, c: (int, int)) -> bool {
        ||| (self.in_grid(c.0 - 1, c.1) && self.in_grid(c.0 + 1, c.1) && separates_regions(
            self.tile(c.0 - 1, c.1),
            self.tile(c.0 + 1, c.1),
        ))
        ||| (self.in_grid(c.0, c.1 - 1) && self.in_grid(c.0, c.1 + 1) && separates_regions(
            self.tile(c.0, c.1 - 1),
            self.tile(c.0, c.1 + 1),
        ))
    }

    /// `d` names a wall cell and the two tiles on opposite sides of it, which it would join.
    pub open spec fn door_candidate(&self, d: Door) -> bool {
        let (x, y) = pos(d.index);
        &&& self.in_grid(x, y)
        &&& self.tile(x, y) is Wall
        &&& separates_regions(d.separates.0, d.separates.1)
        &&& {
            ||| (self.in_grid(x - 1, y) && self.in_grid(x + 1, y) && d.separates == (
                self.tile(x - 1, y),
                self.tile(x + 1, y),
            ))
            ||| (self.in_grid(x, y - 1) && self.in_grid(x, y + 1) && d.separates == (
                self.tile(x, y - 1),
                self.tile(x, y + 1),
            ))
        }
    }

    /// A door at `index` between cells `a` and `b`, if both lie on the grid and a door there
    /// would join two regions.
    pub fn resolve_door(
        &self,
        index: (usize, usize),
        a: Option<(usize, usize)>,
        b: Option<(usize, usize)>,
    ) -> (r: Option<Door>)
        requires
            self.wf(),
            a matches Some(p) ==> self.in_grid(p.0 as int, p.1 as int),
            b matches Some(p) ==> self.in_grid(p.0 as int, p.1 as int),
        ensures
            r == (match (a, b) {
                (Some(p), Some(q)) => if separates_regions(
                    self.tile(p.0 as int, p.1 as int),
                    self.tile(q.0 as int, q.1 as int),
                ) {
                    Some(
                        Door {
                            index,
                            separates: (self.tile(p.0 as int, p.1 as int), self.tile(q.0 as int, q.1 as int)),
                        },
                    )
                } else {
                    None
                },
                _ => None,
            }),
    {
        match (a, b) {
            (Some(p), Some(q)) => {
                let s_a = self.tile_at(p.0, p.1);
                let s_b = self.tile_at(q.0, q.1);
                if is_door_pair(s_a, s_b) {
                    Some(Door { index, separates: (s_a, s_b) })
                } else {
                    None
                }
            },
            _ => None,
        }
    }

    /// The door at `(x, y)` between its left and right neighbours.
    pub open spec fn across_x(&self, x: int, y: int) -> Door {
        Door { index: (x as usize, y as usize), separates: (self.tile(x - 1, y), self.tile(x + 1, y)) }
    }

    /// The door at `(x, y)` between its neighbours above and below.
    pub open spec fn across_y(&self, x: int, y: int) -> Door {
        Door { index: (x as usize, y as usize), separates: (self.tile(x, y - 1), self.tile(x, y + 1)) }
    }

    /// The candidates that the wall cell `(x, y)` gives: across `x`, across `y`, or both.
    pub open spec fn listed_at(&self, out: Seq<Door>, x: int, y: int) -> bool {
        &&& (self.in_grid(x - 1, y) && self.in_grid(x + 1, y) && separates_regions(
            self.tile(x - 1, y),
            self.tile(x + 1, y),
        )) ==> out.contains(self.across_x(x, y))
        &&& (self.in_grid(x, y - 1) && self.in_grid(x, y + 1) && separates_regions(
            self.tile(x, y - 1),
            self.tile(x, y + 1),
        )) ==> out.contains(self.across_y(x, y))
    }

    /// Every candidate door: for each wall cell, scanning `x` then `y`, its horizontal and then
    /// its vertical pair of neighbours where a door would join them.
    pub fn door_candidates(&self) -> (r: Vec<Door>)
        requires
            self.wf(),
        ensures
            forall|i: int| 0 <= i < r@.len() ==> self.door_candidate(#[trigger] r@[i]),
            forall|d: Door| #[trigger] self.door_candidate(d) ==> r@.contains(d),
    {
        let w = self.width() as usize;
        let h = self.height() as usize;
        let mut out: Vec<Door> = Vec::new();
        let mut x: usize = 0;
        while x < w
            invariant
                self.wf(),
                w == self.width_spec(),
                h == self.height_spec(),
                x <= w,
                forall|i: int| 0 <= i < out@.len() ==> self.door_candidate(#[trigger] out@[i]),
                forall|a: int, b: int|
                    #![trigger self.tile(a, b)]
                    0 <= a < x && self.in_grid(a, b) && self.tile(a, b) is Wall ==> self.listed_at(out@, a, b),
            decreases w - x,
        {
            let mut y: usize = 0;
            while y < h
                invariant
                    self.wf(),
                    w == self.width_spec(),
                    h == self.height_spec(),
                    x < w,
                    y <= h,
                    forall|i: int| 0 <= i < out@.len() ==> self.door_candidate(#[trigger] out@[i]),
                    forall|a: int, b: int|
                        #![trigger self.tile(a, b)]
                        (0 <= a < x || (a == x && b < y)) && self.in_grid(a, b) && self.tile(a, b) is Wall
                            ==> self.listed_at(out@, a, b),
                decreases h - y,
            {
                let ghost out0 = out@;
                if self.tile_at(x, y).is_wall() {
                    let i = (x, y);
                    let left = self.resolve_neighbour(x, y, 2);
                    let right = self.resolve_neighbour(x, y, 3);
                    if let Some(d) = self.resolve_door(i, left, right) {
                        out.push(d);
                    }
                    let ghost out1 = out@;
                    let up = self.resolve_neighbour(x, y, 0);
                    let down = self.resolve_neighbour(x, y, 1);
                    if let Some(d) = self.resolve_door(i, up, down) {
                        out.push(d);
                    }
                    proof {
                        let xi = x as int;
                        let yi = y as int;
                        assert forall|k: int| 0 <= k < out0.len() implies #[trigger] out@[k] == out0[k] by {
                            assert(out1[k] == out0[k]);
                        }
                        if self.in_grid(xi - 1, yi) && self.in_grid(xi + 1, yi) && separates_regions(
                            self.tile(xi - 1, yi),
                            self.tile(xi + 1, yi),
                        ) {
                            assert(out1[out0.len() as int] == self.across_x(xi, yi));
                            assert(out@[out0.len() as int] == out1[out0.len() as int]);
                        }
                        if self.in_grid(xi, yi - 1) && self.in_grid(xi, yi + 1) && separates_regions(
                            self.tile(xi, yi - 1),
                            self.tile(xi, yi + 1),
                        ) {
                            assert(out@[out1.len() as int] == self.across_y(xi, yi));
                        }
                        assert(self.listed_at(out@, xi, yi));
                    }
                }
                proof {
                    assert forall|k: int| 0 <= k < out0.len() implies #[trigger] out@[k] == out0[k] by {}
                    assert forall|a: int, b: int|
                        #![trigger self.tile(a, b)]
                        (0 <= a < x || (a == x && b < y + 1)) && self.in_grid(a, b) && self.tile(a, b) is Wall
                            implies self.listed_at(out@, a, b) by {
                        if !(a == x && b == y) {
                            assert(self.listed_at(out0, a, b));
                            if out0.contains(self.across_x(a, b)) {
                                let k = choose|k: int| 0 <= k < out0.len() && out0[k] == self.across_x(a, b);
                                assert(out@[k] == out0[k]);
                            }
                            if out0.contains(self.across_y(a, b)) {
                                let k = choose|k: int| 0 <= k < out0.len() && out0[k] == self.across_y(a, b);
                                assert(out@[k] == out0[k]);
                            }
                        }
                    }
                }
                y += 1;
            }
            x += 1;
        }
        proof {
            assert forall|d: Door| #[trigger] self.door_candidate(d) implies out@.contains(d) by {
                let (a, b) = pos(d.index);
                assert(self.tile(a, b) is Wall);
                assert(self.listed_at(out@, a, b));
                assert(d.index == (a as usize, b as usize));
                if self.in_grid(a - 1, b) && self.in_grid(a + 1, b) && d.separates == (
                    self.tile(a - 1, b),
                    self.tile(a + 1, b),
                ) {
                    assert(d == self.across_x(a, b));
                } else {
                    assert(d == self.across_y(a, b));
                }
            }
        }
        out
    }

    /// The tiles `s` lie on opposite sides of `(x, y)`, left and right or above and below.
    pub open spec fn pair_at(&self, x: int, y: int, s: (TileState, TileState)) -> bool {
        ||| (self.in_grid(x - 1, y) && self.in_grid(x + 1, y) && (self.tile(x - 1, y), self.tile(x + 1, y))
            == s)
        ||| (self.in_grid(x, y - 1) && self.in_grid(x, y + 1) && (self.tile(x, y - 1), self.tile(x, y + 1))
            == s)
    }

    /// Some door has the tiles `s` on opposite sides of it, in either order.
    pub open spec fn pair_served(&self, s: (TileState, TileState)) -> bool {
        exists|x: int, y: int|
            self.in_grid(x, y) && #[trigger] self.tile(x, y) is Door && (self.pair_at(x, y, s)
                || self.pair_at(x, y, (s.1, s.0)))
    }

    /// Every change from `o` turns a wall into a door that joins two regions of `o`.
    pub open spec fn only_doors_from(&self, o: &GridMap) -> bool {
        forall|x: int, y: int|
            #![trigger self.tile(x, y)]
            self.in_grid(x, y) ==> self.tile(x, y) == o.tile(x, y) || (o.tile(x, y) is Wall
                && self.tile(x, y) is Door && o.joins_regions((x, y)))
    }

    /// Doors placed on `o` keep joining regions: the cells on either side of a door were rooms
    /// or corridors, and those never change.
    pub proof fn lemma_doors_keep_joining(&self, o: &GridMap, c: (int, int))
        requires
            self.same_shape(o),
            self.only_doors_from(o),
            o.joins_regions(c),
        ensures
            self.joins_regions(c),
    {
        let (x, y) = c;
        if o.in_grid(x - 1, y) && o.in_grid(x + 1, y) && separates_regions(o.tile(x - 1, y), o.tile(x + 1, y)) {
            assert(self.tile(x - 1, y) == o.tile(x - 1, y));
            assert(self.tile(x + 1, y) == o.tile(x + 1, y));
        } else {
            assert(self.tile(x, y - 1) == o.tile(x, y - 1));
            assert(self.tile(x, y + 1) == o.tile(x, y + 1));
        }
    }

    /// Turns candidate doors into doors: after a random shuffle of the candidates, the first
    /// of each pair of joined tiles is kept, and up to `superfluous_per_room` thousandths per
    /// room of further ones.
    pub fn add_doors(&mut self, superfluous_per_room: u32, rng: &mut rand::rngs::StdRng)
        requires
            old(self).wf(),
        ensures
            final(self).wf(),
            final(self).same_shape(old(self)),
            final(self).same_records(old(self)),
            final(self).only_doors_from(old(self)),
            forall|x: int, y: int|
                #![trigger final(self).tile(x, y)]
                final(self).in_grid(x, y) && final(self).tile(x, y) is Door && !(old(self).tile(x, y) is Door)
                    ==> final(self).joins_regions((x, y)),
            forall|d: Door| #[trigger] old(self).door_candidate(d) ==> final(self).pair_served(d.separates),
    {
        let ghost orig = *self;
        let mut possible = self.door_candidates();
        let ghost cands = possible@;
        shuffle_in_place(&mut possible, rng);
        proof {
            lemma_permutation_elements(possible@, cands);
            assert forall|d: Door| #[trigger] orig.door_candidate(d) implies possible@.contains(d) by {
                assert(cands.contains(d));
            }
            assert forall|i: int| 0 <= i < possible@.len() implies orig.door_candidate(#[trigger] possible@[i]) by {
                assert(possible@.contains(possible@[i]));
                let j = choose|j: int| 0 <= j < cands.len() && cands[j] == possible@[i];
                assert(orig.door_candidate(cands[j]));
            }
        }
        let rooms = self.rooms().len() as u128;
        assert(rooms * (superfluous_per_room as u128) <= 0x1_0000_0000_0000_0000u128 * 0x1_0000_0000u128)
            by (nonlinear_arith)
            requires
                rooms <= 0xffff_ffff_ffff_ffffu128,
                superfluous_per_room <= 0xffff_ffffu32,
        ;
        let extra_wide: u128 = rooms * (superfluous_per_room as u128) / (PER_MILLE as u128);
        let extra: usize = if extra_wide > usize::MAX as u128 {
            usize::MAX
        } else {
            extra_wide as usize
        };
        let doors = select_doors(&possible, extra);
        let mut i: usize = 0;
        while i < doors.len()
            invariant
                self.wf(),
                self.same_shape(&orig),
                self.same_records(&orig),
                self.only_doors_from(&orig),
                forall|k: int| 0 <= k < doors@.len() ==> orig.door_candidate(#[trigger] doors@[k]),
                i <= doors@.len(),
                forall|k: int|
                    0 <= k < i ==> self.tile((#[trigger] doors@[k]).index.0 as int, doors@[k].index.1 as int) is Door,
            decreases doors@.len() - i,
        {
            let d = doors[i];
            let ghost before = *self;
            proof {
                assert(orig.door_candidate(doors@[i as int]));
            }
            self.set_tile(d.index.0, d.index.1, TileState::Door);
            proof {
                let (dx, dy) = pos(d.index);
                assert(orig.joins_regions((dx, dy)));
                assert forall|x: int, y: int|
                    #![trigger self.tile(x, y)]
                    self.in_grid(x, y) implies self.tile(x, y) == orig.tile(x, y) || (orig.tile(x, y) is Wall
                        && self.tile(x, y) is Door && orig.joins_regions((x, y))) by {
                    if x == dx && y == dy {
                    } else {
                        assert(self.tile(x, y) == before.tile(x, y));
                    }
                }
                assert forall|k: int|
                    0 <= k < i + 1 implies self.tile((#[trigger] doors@[k]).index.0 as int, doors@[k].index.1 as int) is Door by {
                    let (kx, ky) = pos(doors@[k].index);
                    if k < i {
                        assert(before.tile(kx, ky) is Door);
                        if !(kx == dx && ky == dy) {
                            assert(self.tile(kx, ky) == before.tile(kx, ky));
                        }
                    }
                }
            }
            i += 1;
        }
        proof {
            assert forall|x: int, y: int|
                #![trigger self.tile(x, y)]
                self.in_grid(x, y) && self.tile(x, y) is Door && !(orig.tile(x, y) is Door) implies self.joins_regions(
                (x, y),
            ) by {
                self.lemma_doors_keep_joining(&orig, (x, y));
            }
            assert forall|d: Door| #[trigger] orig.door_candidate(d) implies self.pair_served(d.separates) by {
                assert(possible@.contains(d));
                let j = choose|j: int| 0 <= j < possible@.len() && possible@[j] == d;
                assert(served(doors@, possible@[j]));
                let k = choose|k: int| 0 <= k < doors@.len() && #[trigger] same_pair(d, doors@[k]);
                let e = doors@[k];
                let (ex, ey) = pos(e.index);
                assert(orig.door_candidate(e));
                assert(self.tile(ex, ey) is Door);
                assert(orig.pair_at(ex, ey, e.separates));
                if orig.in_grid(ex - 1, ey) && orig.in_grid(ex + 1, ey) && (orig.tile(ex - 1, ey), orig.tile(ex + 1, ey))
                    == e.separates {
                    assert(self.tile(ex - 1, ey) == orig.tile(ex - 1, ey));
                    assert(self.tile(ex + 1, ey) == orig.tile(ex + 1, ey));
                } else {
                    assert(self.tile(ex, ey - 1) == orig.tile(ex, ey - 1));
                    assert(self.tile(ex, ey + 1) == orig.tile(ex, ey + 1));
                }
                assert(self.pair_at(ex, ey, e.separates));
            }
        }
    }
}

/// Walks the candidates in order and keeps each one whose pair of tiles no kept door joins yet;
/// while `extra` lasts, one that repeats a pair is kept too, using up one of `extra`. So every
/// pair is joined, and at most `extra` kept doors repeat a pair.
pub fn select_doors(cands: &Vec<Door>, extra: usize) -> (r: Vec<Door>)
    ensures
        forall|k: int| 0 <= k < r@.len() ==> cands@.contains(#[trigger] r@[k]),
        forall|j: int| 0 <= j < cands@.len() ==> served(r@, #[trigger] cands@[j]),
        repeats(r@) <= extra,
{
    let mut budget = extra;
    let mut doors: Vec<Door> = Vec::new();
    let mut j: usize = 0;
    while j < cands.len()
        invariant
            j <= cands@.len(),
            forall|k: int| 0 <= k < doors@.len() ==> cands@.contains(#[trigger] doors@[k]),
            forall|i: int| 0 <= i < j ==> served(doors@, #[trigger] cands@[i]),
            repeats(doors@) + budget == extra,
        decreases cands@.len() - j,
    {
        let d = cands[j];
        let mut found = false;
        let mut k: usize = 0;
        while k < doors.len() && !found
            invariant
                j < cands@.len(),
                k <= doors@.len(),
                d == cands@[j as int],
                forall|k2: int| 0 <= k2 < doors@.len() ==> cands@.contains(#[trigger] doors@[k2]),
                forall|i: int| 0 <= i < j ==> served(doors@, #[trigger] cands@[i]),
                found ==> k > 0 && same_pair(d, doors@[k - 1]),
                !found ==> forall|k2: int| 0 <= k2 < k ==> !#[trigger] same_pair(d, doors@[k2]),
                repeats(doors@) + budget == extra,
            decreases doors@.len() - k,
        {
            if d == doors[k] {
                found = true;
            }
            k += 1;
        }
        let ghost was_found = found;
        proof {
            if !was_found {
                assert(!served(doors@, d));
            } else {
                assert(served(doors@, d));
            }
        }
        if found && budget > 0 {
            budget -= 1;
            found = false;
        }
        let ghost d0 = doors@;
        if !found {
            doors.push(d);
            proof {
                assert(doors@.drop_last() =~= d0);
            }
        }
        proof {
            assert forall|i: int| 0 <= i < j + 1 implies served(doors@, #[trigger] cands@[i]) by {
                if i < j {
                    assert(served(d0, cands@[i]));
                    let k2 = choose|k2: int| 0 <= k2 < d0.len() && #[trigger] same_pair(cands@[i], d0[k2]);
                    assert(doors@[k2] == d0[k2]);
                    assert(same_pair(cands@[i], doors@[k2]));
                } else if !found {
                    assert(doors@[d0.len() as int] == d);
                    assert(same_pair(cands@[i], doors@[d0.len() as int]));
                } else {
                    assert(same_pair(cands@[i], doors@[k - 1]));
                }
            }
            assert forall|k2: int| 0 <= k2 < doors@.len() implies cands@.contains(#[trigger] doors@[k2]) by {
                if k2 < d0.len() {
                    assert(doors@[k2] == d0[k2]);
                } else {
                    assert(doors@[k2] == cands@[j as int]);
                }
            }
        }
        j += 1;
    }
    doors
}

} // verus!

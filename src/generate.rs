use vstd::prelude::*;
use crate::grid::{GridMap, MapObject, TileState};
use crate::config::MapConfig;
use crate::maze::pos;

verus! {

/// `o` is the single cell `(x, y)`.
pub open spec fn is_cell_block(o: MapObject, x: int, y: int) -> bool {
    o.start_spec() == o.end_spec() && pos(o.start_spec()) == (x, y)
}

impl GridMap {
    /// The recorded corridor and door blocks are exactly the single corridor and door cells.
    pub open spec fn cell_records_match(&self) -> bool {
        &&& forall|k: int|
            0 <= k < self.corridors_spec().len() ==> {
                let o = #[trigger] self.corridors_spec()[k];
                let (x, y) = pos(o.start_spec());
                o.start_spec() == o.end_spec() && self.in_grid(x, y) && self.tile(x, y) is Corridor
            }
        &&& forall|x: int, y: int|
            #![trigger self.tile(x, y)]
            self.in_grid(x, y) && self.tile(x, y) is Corridor ==> exists|k: int|
                0 <= k < self.corridors_spec().len() && is_cell_block(
                    #[trigger] self.corridors_spec()[k],
                    x,
                    y,
                )
        &&& forall|k: int|
            0 <= k < self.doors_spec().len() ==> {
                let o = #[trigger] self.doors_spec()[k];
                let (x, y) = pos(o.start_spec());
                o.start_spec() == o.end_spec() && self.in_grid(x, y) && self.tile(x, y) is Door
            }
        &&& forall|x: int, y: int|
            #![trigger self.tile(x, y)]
            self.in_grid(x, y) && self.tile(x, y) is Door ==> exists|k: int|
                0 <= k < self.doors_spec().len() && is_cell_block(#[trigger] self.doors_spec()[k], x, y)
    }

    proof fn lemma_records_match_transfer(&self, o: &GridMap)
        requires
            o.cell_records_match(),
            self.same_shape(o),
            self.cells() == o.cells(),
            self.corridors_spec() == o.corridors_spec(),
            self.doors_spec() == o.doors_spec(),
        ensures
            self.cell_records_match(),
    {
        assert forall|x: int, y: int|
            #![trigger self.tile(x, y)]
            self.in_grid(x, y) && self.tile(x, y) is Corridor implies exists|k: int|
                0 <= k < self.corridors_spec().len() && is_cell_block(
                    #[trigger] self.corridors_spec()[k],
                    x,
                    y,
                ) by {
            assert(o.tile(x, y) == self.tile(x, y));
        }
        assert forall|x: int, y: int|
            #![trigger self.tile(x, y)]
            self.in_grid(x, y) && self.tile(x, y) is Door implies exists|k: int|
                0 <= k < self.doors_spec().len() && is_cell_block(#[trigger] self.doors_spec()[k], x, y) by {
            assert(o.tile(x, y) == self.tile(x, y));
        }
        assert forall|k: int| 0 <= k < self.corridors_spec().len() implies {
            let c = #[trigger] self.corridors_spec()[k];
            let (x, y) = pos(c.start_spec());
            c.start_spec() == c.end_spec() && self.in_grid(x, y) && self.tile(x, y) is Corridor
        } by {
            let c = o.corridors_spec()[k];
            let (x, y) = pos(c.start_spec());
            assert(o.tile(x, y) == self.tile(x, y));
        }
        assert forall|k: int| 0 <= k < self.doors_spec().len() implies {
            let c = #[trigger] self.doors_spec()[k];
            let (x, y) = pos(c.start_spec());
            c.start_spec() == c.end_spec() && self.in_grid(x, y) && self.tile(x, y) is Door
        } by {
            let c = o.doors_spec()[k];
            let (x, y) = pos(c.start_spec());
            assert(o.tile(x, y) == self.tile(x, y));
        }
    }

    /// Records a block for every corridor cell and every door cell, scanning `x` then `y`, and
    /// one floor block over the whole grid.
    pub fn fill_debug_vecs(&mut self)
        requires
            old(self).wf(),
            old(self).corridors_spec().len() == 0,
            old(self).doors_spec().len() == 0,
        ensures
            final(self).wf(),
            final(self).same_shape(old(self)),
            final(self).cells() == old(self).cells(),
            final(self).rooms_spec() == old(self).rooms_spec(),
            final(self).walls_spec() == old(self).walls_spec(),
            final(self).cell_records_match(),
            final(self).floors_spec().len() == old(self).floors_spec().len() + 1,
            final(self).floors_spec().last().start_spec() == (0usize, 0usize),
            final(self).floors_spec().last().end_spec() == (
                (old(self).width_spec() - 1) as usize,
                (old(self).height_spec() - 1) as usize,
            ),
    {
        let ghost orig = *self;
        let w = self.width() as usize;
        let h = self.height() as usize;
        let mut x: usize = 0;
        while x < w
            invariant
                self.wf(),
                self.same_shape(&orig),
                self.cells() == orig.cells(),
                self.rooms_spec() == orig.rooms_spec(),
                self.walls_spec() == orig.walls_spec(),
                self.floors_spec() == orig.floors_spec(),
                w == self.width_spec(),
                h == self.height_spec(),
                x <= w,
                forall|k: int|
                    0 <= k < self.corridors_spec().len() ==> {
                        let o = #[trigger] self.corridors_spec()[k];
                        let (a, b) = pos(o.start_spec());
                        o.start_spec() == o.end_spec() && self.in_grid(a, b) && self.tile(a, b) is Corridor
                    },
                forall|a: int, b: int|
                    #![trigger self.tile(a, b)]
                    0 <= a < x && self.in_grid(a, b) && self.tile(a, b) is Corridor ==> exists|k: int|
                        0 <= k < self.corridors_spec().len() && is_cell_block(
                            #[trigger] self.corridors_spec()[k],
                            a,
                            b,
                        ),
                forall|k: int|
                    0 <= k < self.doors_spec().len() ==> {
                        let o = #[trigger] self.doors_spec()[k];
                        let (a, b) = pos(o.start_spec());
                        o.start_spec() == o.end_spec() && self.in_grid(a, b) && self.tile(a, b) is Door
                    },
                forall|a: int, b: int|
                    #![trigger self.tile(a, b)]
                    0 <= a < x && self.in_grid(a, b) && self.tile(a, b) is Door ==> exists|k: int|
                        0 <= k < self.doors_spec().len() && is_cell_block(#[trigger] self.doors_spec()[k], a, b),
            decreases w - x,
        {
            let mut y: usize = 0;
            while y < h
                invariant
                    self.wf(),
                    self.same_shape(&orig),
                    self.cells() == orig.cells(),
                    self.rooms_spec() == orig.rooms_spec(),
                    self.walls_spec() == orig.walls_spec(),
                    self.floors_spec() == orig.floors_spec(),
                    w == self.width_spec(),
                    h == self.height_spec(),
                    x < w,
                    y <= h,
                    forall|k: int|
                        0 <= k < self.corridors_spec().len() ==> {
                            let o = #[trigger] self.corridors_spec()[k];
                            let (a, b) = pos(o.start_spec());
                            o.start_spec() == o.end_spec() && self.in_grid(a, b) && self.tile(a, b) is Corridor
                        },
                    forall|a: int, b: int|
                        #![trigger self.tile(a, b)]
                        (0 <= a < x || (a == x && b < y)) && self.in_grid(a, b) && self.tile(a, b) is Corridor
                            ==> exists|k: int|
                            0 <= k < self.corridors_spec().len() && is_cell_block(
                                #[trigger] self.corridors_spec()[k],
                                a,
                                b,
                            ),
                    forall|k: int|
                        0 <= k < self.doors_spec().len() ==> {
                            let o = #[trigger] self.doors_spec()[k];
                            let (a, b) = pos(o.start_spec());
                            o.start_spec() == o.end_spec() && self.in_grid(a, b) && self.tile(a, b) is Door
                        },
                    forall|a: int, b: int|
                        #![trigger self.tile(a, b)]
                        (0 <= a < x || (a == x && b < y)) && self.in_grid(a, b) && self.tile(a, b) is Door
                            ==> exists|k: int|
                            0 <= k < self.doors_spec().len() && is_cell_block(
                                #[trigger] self.doors_spec()[k],
                                a,
                                b,
                            ),
                decreases h - y,
            {
                let ghost c0 = self.corridors_spec();
                let ghost d0 = self.doors_spec();
                let ghost s0 = *self;
                match self.tile_at(x, y) {
                    TileState::Corridor(_) => {
                        self.push_corridor(MapObject::new((x, y), (x, y)));
                        proof {
                            assert(is_cell_block(self.corridors_spec()[c0.len() as int], x as int, y as int));
                        }
                    },
                    TileState::Door => {
                        self.push_door(MapObject::new((x, y), (x, y)));
                        proof {
                            assert(is_cell_block(self.doors_spec()[d0.len() as int], x as int, y as int));
                        }
                    },
                    _ => {},
                }
                proof {
                    assert forall|k: int| 0 <= k < c0.len() implies #[trigger] self.corridors_spec()[k] == c0[k] by {}
                    assert forall|k: int| 0 <= k < d0.len() implies #[trigger] self.doors_spec()[k] == d0[k] by {}
                    assert forall|a: int, b: int|
                        #![trigger self.tile(a, b)]
                        (0 <= a < x || (a == x && b < y + 1)) && self.in_grid(a, b) && self.tile(a, b) is Corridor
                            implies exists|k: int|
                            0 <= k < self.corridors_spec().len() && is_cell_block(
                                #[trigger] self.corridors_spec()[k],
                                a,
                                b,
                            ) by {
                        if !(a == x && b == y) {
                            assert(s0.tile(a, b) == self.tile(a, b));
                            let k = choose|k: int|
                                0 <= k < c0.len() && is_cell_block(#[trigger] c0[k], a, b);
                            assert(self.corridors_spec()[k] == c0[k]);
                        }
                    }
                    assert forall|a: int, b: int|
                        #![trigger self.tile(a, b)]
                        (0 <= a < x || (a == x && b < y + 1)) && self.in_grid(a, b) && self.tile(a, b) is Door
                            implies exists|k: int|
                            0 <= k < self.doors_spec().len() && is_cell_block(
                                #[trigger] self.doors_spec()[k],
                                a,
                                b,
                            ) by {
                        if !(a == x && b == y) {
                            assert(s0.tile(a, b) == self.tile(a, b));
                            let k = choose|k: int| 0 <= k < d0.len() && is_cell_block(#[trigger] d0[k], a, b);
                            assert(self.doors_spec()[k] == d0[k]);
                        }
                    }
                }
                y += 1;
            }
            x += 1;
        }
        let ghost s1 = *self;
        self.push_floor(MapObject::new((0, 0), (w - 1, h - 1)));
        proof {
            assert forall|a: int, b: int|
                #![trigger self.tile(a, b)]
                self.in_grid(a, b) && self.tile(a, b) is Corridor implies exists|k: int|
                    0 <= k < self.corridors_spec().len() && is_cell_block(
                        #[trigger] self.corridors_spec()[k],
                        a,
                        b,
                    ) by {
                assert(s1.tile(a, b) == self.tile(a, b));
            }
            assert forall|a: int, b: int|
                #![trigger self.tile(a, b)]
                self.in_grid(a, b) && self.tile(a, b) is Door implies exists|k: int|
                    0 <= k < self.doors_spec().len() && is_cell_block(#[trigger] self.doors_spec()[k], a, b) by {
                assert(s1.tile(a, b) == self.tile(a, b));
            }
        }
    }

    /// Generates a new map over the whole grid: rooms, then corridors through the rest, then
    /// doors between regions, then dead ends pruned away; then records the corridor, door and
    /// floor blocks and covers the walls with rectangles.
    pub fn generate(&mut self, config: &MapConfig, rng: &mut rand::rngs::StdRng)
        requires
            old(self).wf(),
            config.wf(),
            config.room_place_max_iterations == 0 || exists|j: int|
                0 <= j < config.room_sizes@.len() && #[trigger] config.room_sizes@[j].frequency > 0,
        ensures
            final(self).wf(),
            final(self).same_shape(old(self)),
            forall|x: int, y: int| !#[trigger] final(self).dead_end((x, y)),
            final(self).wall_partition(final(self).walls_spec()),
            final(self).greedy_sweep(final(self).walls_spec()),
            final(self).cell_records_match(),
            final(self).rooms_stamped(),
            final(self).rooms_apart(),
            final(self).rooms_exact(),
            forall|x: int, y: int|
                #![trigger final(self).tile(x, y)]
                final(self).in_grid(x, y) && (x == 0 || y == 0 || x == final(self).width_spec() - 1 || y
                    == final(self).height_spec() - 1) ==> final(self).tile(x, y) is Wall,
            final(self).floors_spec().len() == 1,
            final(self).floors_spec()[0].start_spec() == (0usize, 0usize),
            final(self).floors_spec()[0].end_spec() == (
                (old(self).width_spec() - 1) as usize,
                (old(self).height_spec() - 1) as usize,
            ),
    {
        self.reset_state();
        let ghost s0 = *self;
        self.fill_rooms(config, rng);
        let ghost s1 = *self;
        proof {
            assert(s0.rooms_exact());
            assert forall|x: int, y: int|
                #![trigger s1.tile(x, y)]
                s1.in_grid(x, y) && (x == 0 || y == 0 || x == s1.width_spec() - 1 || y == s1.height_spec() - 1)
                    implies s1.tile(x, y) is Wall by {
                assert(s0.tile(x, y) is Wall);
            }
        }
        self.fill_maze(config.corridor_turn_chance, rng);
        proof {
            self.lemma_rooms_stay_stamped(&s1);
            self.lemma_rooms_exact_kept(&s1);
        }
        let ghost s2 = *self;
        proof {
            assert forall|x: int, y: int|
                #![trigger s2.tile(x, y)]
                s2.in_grid(x, y) && (x == 0 || y == 0 || x == s2.width_spec() - 1 || y == s2.height_spec() - 1)
                    implies s2.tile(x, y) is Wall by {
                assert(s1.tile(x, y) is Wall);
                if s2.carved_at(&s1, (x, y)) {
                    assert(s2.inner((x, y)));
                }
            }
        }
        self.add_doors(config.superfluous_doors_per_room, rng);
        proof {
            self.lemma_rooms_stay_stamped(&s2);
            self.lemma_rooms_exact_kept(&s2);
            assert forall|x: int, y: int|
                #![trigger self.tile(x, y)]
                self.in_grid(x, y) && (x == 0 || y == 0 || x == self.width_spec() - 1 || y == self.height_spec() - 1)
                    implies self.tile(x, y) is Wall by {
                assert(s2.tile(x, y) is Wall);
                if !s2.joins_regions((x, y)) {
                } else {
                    if x == 0 || x == s2.width_spec() - 1 {
                        assert(!s2.in_grid(x - 1, y) || !s2.in_grid(x + 1, y));
                        if s2.in_grid(x, y - 1) && s2.in_grid(x, y + 1) {
                            assert(s2.tile(x, y - 1) is Wall);
                        }
                    } else {
                        assert(!s2.in_grid(x, y - 1) || !s2.in_grid(x, y + 1));
                        if s2.in_grid(x - 1, y) && s2.in_grid(x + 1, y) {
                            assert(s2.tile(x - 1, y) is Wall);
                        }
                    }
                }
            }
        }
        let ghost s3 = *self;
        self.remove_dead_ends();
        proof {
            self.lemma_rooms_stay_stamped(&s3);
            self.lemma_rooms_exact_kept(&s3);
            assert forall|x: int, y: int|
                #![trigger self.tile(x, y)]
                self.in_grid(x, y) && (x == 0 || y == 0 || x == self.width_spec() - 1 || y == self.height_spec() - 1)
                    implies self.tile(x, y) is Wall by {
                assert(s3.tile(x, y) is Wall);
            }
        }
        let ghost pruned = *self;
        self.fill_debug_vecs();
        let ghost recorded = *self;
        self.greedy_mesh_walls();
        proof {
            assert forall|x: int, y: int|
                #![trigger self.tile(x, y)]
                self.in_grid(x, y) && (x == 0 || y == 0 || x == self.width_spec() - 1 || y == self.height_spec() - 1)
                    implies self.tile(x, y) is Wall by {
                assert(pruned.tile(x, y) is Wall);
            }
            self.lemma_rooms_stay_stamped(&pruned);
            self.lemma_rooms_exact_kept(&pruned);
            self.lemma_records_match_transfer(&recorded);
            assert(self.walls_spec().subrange(0, 0) =~= Seq::<MapObject>::empty());
            assert(self.walls_spec().subrange(0, self.walls_spec().len() as int) =~= self.walls_spec());
            assert forall|x: int, y: int| !#[trigger] self.dead_end((x, y)) by {
                self.lemma_same_cells_same_walls(&pruned, (x, y), 4);
                assert(!pruned.dead_end((x, y)));
            }
        }
    }
}

} // verus!

use vstd::prelude::*;
use crate::grid::GridMap;
use crate::maze::pos;

verus! {

/// The step after `(ix, iy)` of a march that must make `dx` steps in `x` and `dy` in `y`,
/// from the centre of the first cell towards the centre of the last: the ray leaves the
/// current cell through its side in `x`, its side in `y`, or exactly through its corner.
pub open spec fn march_next(dx: int, dy: int, ix: int, iy: int) -> (int, int) {
    if ix >= dx {
        (ix, iy + 1)
    } else if iy >= dy {
        (ix + 1, iy)
    } else {
        let l = (1 + 2 * ix) * dy;
        let r = (1 + 2 * iy) * dx;
        if l < r {
            (ix + 1, iy)
        } else if l > r {
            (ix, iy + 1)
        } else {
            (ix + 1, iy + 1)
        }
    }
}

/// The coordinate reached after `i` steps from `a` in direction `up` (towards larger values).
pub open spec fn step_coord(a: int, up: bool, i: int) -> int {
    if up {
        a + i
    } else {
        a - i
    }
}

/// The cells of the march from step `(ix, iy)` on, from `(ax, ay)` towards
/// `(ax ± dx, ay ± dy)`.
pub open spec fn march(ax: int, ay: int, ux: bool, uy: bool, dx: int, dy: int, ix: int, iy: int) -> Seq<
    (int, int),
>
    decreases (dx - ix) + (dy - iy),
{
    let c = (step_coord(ax, ux, ix), step_coord(ay, uy, iy));
    if !(0 <= ix <= dx && 0 <= iy <= dy) || (ix == dx && iy == dy) {
        seq![c]
    } else {
        let (nx, ny) = march_next(dx, dy, ix, iy);
        seq![c] + march(ax, ay, ux, uy, dx, dy, nx, ny)
    }
}

/// The cells that a ray from the centre of `p` to the centre of `q` passes through, in order.
pub open spec fn march_between(p: (int, int), q: (int, int)) -> Seq<(int, int)> {
    let dx = if q.0 >= p.0 { q.0 - p.0 } else { p.0 - q.0 };
    let dy = if q.1 >= p.1 { q.1 - p.1 } else { p.1 - q.1 };
    march(p.0, p.1, q.0 >= p.0, q.1 >= p.1, dx, dy, 0, 0)
}

/// `a` comes first in the order by `x`, then `y`.
pub open spec fn lex_le(a: (int, int), b: (int, int)) -> bool {
    a.0 < b.0 || (a.0 == b.0 && a.1 <= b.1)
}

/// The ray between two cells, always marched from the one that comes first, so that the
/// cells crossed do not depend on which end it is looked at from.
pub open spec fn ray_path(a: (int, int), b: (int, int)) -> Seq<(int, int)> {
    if lex_le(a, b) {
        march_between(a, b)
    } else {
        march_between(b, a)
    }
}

impl GridMap {
    /// Every cell on the ray between `a` and `b` is open.
    pub open spec fn sight_clear(&self, a: (int, int), b: (int, int)) -> bool {
        forall|i: int|
            0 <= i < ray_path(a, b).len() ==> self.open_at(
                (#[trigger] ray_path(a, b)[i]).0,
                ray_path(a, b)[i].1,
            )
    }
}

/// Cell positions as integers.
pub open spec fn cells_pos(v: Seq<(usize, usize)>) -> Seq<(int, int)> {
    v.map_values(|c: (usize, usize)| pos(c))
}

proof fn lemma_march_unfold(ax: int, ay: int, ux: bool, uy: bool, dx: int, dy: int, ix: int, iy: int)
    requires
        0 <= ix <= dx,
        0 <= iy <= dy,
    ensures
        march(ax, ay, ux, uy, dx, dy, ix, iy)[0] == (step_coord(ax, ux, ix), step_coord(ay, uy, iy)),
        march(ax, ay, ux, uy, dx, dy, ix, iy).len() >= 1,
        (ix == dx && iy == dy) ==> march(ax, ay, ux, uy, dx, dy, ix, iy) == seq![
            (step_coord(ax, ux, ix), step_coord(ay, uy, iy)),
        ],
        !(ix == dx && iy == dy) ==> march(ax, ay, ux, uy, dx, dy, ix, iy) == seq![
            (step_coord(ax, ux, ix), step_coord(ay, uy, iy)),
        ] + march(
            ax,
            ay,
            ux,
            uy,
            dx,
            dy,
            march_next(dx, dy, ix, iy).0,
            march_next(dx, dy, ix, iy).1,
        ),
{
    reveal_with_fuel(march, 2);
}

/// Sight between two cells does not depend on the direction it is looked in.
pub proof fn lemma_sight_symmetric(g: &GridMap, a: (int, int), b: (int, int))
    ensures
        g.sight_clear(a, b) == g.sight_clear(b, a),
{
    if a == b {
    } else if lex_le(a, b) {
        assert(!lex_le(b, a));
        assert(ray_path(a, b) == ray_path(b, a));
    } else {
        assert(lex_le(b, a));
        assert(ray_path(a, b) == ray_path(b, a));
    }
}

impl GridMap {
    /// Marches the ray from the centre of `p` to the centre of `q`. Returns the cells passed
    /// through, and whether all of them are open; with `stop_at_wall` the march ends at the first
    /// cell that is not.
    fn walk_ray(&self, p: (usize, usize), q: (usize, usize), stop_at_wall: bool) -> (r: (
        Vec<(usize, usize)>,
        bool,
    ))
        requires
            self.wf(),
            self.in_grid(p.0 as int, p.1 as int),
            self.in_grid(q.0 as int, q.1 as int),
        ensures
            r.1 == (forall|i: int|
                0 <= i < march_between(pos(p), pos(q)).len() ==> self.open_at(
                    (#[trigger] march_between(pos(p), pos(q))[i]).0,
                    march_between(pos(p), pos(q))[i].1,
                )),
            (!stop_at_wall || r.1) ==> cells_pos(r.0@) == march_between(pos(p), pos(q)),
    {
        let ghost full = march_between(pos(p), pos(q));
        let ux = q.0 >= p.0;
        let uy = q.1 >= p.1;
        let dx: i64 = if ux {
            (q.0 - p.0) as i64
        } else {
            (p.0 - q.0) as i64
        };
        let dy: i64 = if uy {
            (q.1 - p.1) as i64
        } else {
            (p.1 - q.1) as i64
        };
        let mut ix: i64 = 0;
        let mut iy: i64 = 0;
        let mut out: Vec<(usize, usize)> = Vec::new();
        let mut clear = true;
        loop
            invariant_except_break
                stop_at_wall ==> clear,
                full == cells_pos(out@) + march(p.0 as int, p.1 as int, ux, uy, dx as int, dy as int, ix as int, iy as int),
            invariant
                self.wf(),
                self.in_grid(p.0 as int, p.1 as int),
                self.in_grid(q.0 as int, q.1 as int),
                ux == (q.0 >= p.0),
                uy == (q.1 >= p.1),
                dx == (if ux { q.0 - p.0 } else { p.0 - q.0 }),
                dy == (if uy { q.1 - p.1 } else { p.1 - q.1 }),
                0 <= ix <= dx,
                0 <= iy <= dy,
                full == march(p.0 as int, p.1 as int, ux, uy, dx as int, dy as int, 0, 0),

                clear == (forall|i: int| 0 <= i < out@.len() ==> self.open_at((#[trigger] full[i]).0, full[i].1)),
            ensures
                clear == (forall|i: int| 0 <= i < full.len() ==> self.open_at((#[trigger] full[i]).0, full[i].1)),
                (!stop_at_wall || clear) ==> cells_pos(out@) == full,
            decreases (dx - ix) + (dy - iy),
        {
            proof {
                lemma_march_unfold(p.0 as int, p.1 as int, ux, uy, dx as int, dy as int, ix as int, iy as int);
            }
            let cx: usize = if ux {
                p.0 + ix as usize
            } else {
                p.0 - ix as usize
            };
            let cy: usize = if uy {
                p.1 + iy as usize
            } else {
                p.1 - iy as usize
            };
            let ghost rest = march(p.0 as int, p.1 as int, ux, uy, dx as int, dy as int, ix as int, iy as int);
            let ghost k = out@.len() as int;
            assert(full[k] == rest[0]);
            let open = !self.tile_at(cx, cy).is_wall();
            let ghost out0 = out@;
            out.push((cx, cy));
            proof {
                assert(cells_pos(out@) =~= cells_pos(out0).push((cx as int, cy as int)));
            }
            if !open {
                clear = false;
                if stop_at_wall {
                    break;
                }
            }
            if ix == dx && iy == dy {
                proof {
                    assert(cells_pos(out@) =~= full);
                }
                break;
            }
            if ix >= dx {
                iy += 1;
            } else if iy >= dy {
                ix += 1;
            } else {
                assert((1 + 2 * ix) * dy <= 65536 * 65536) by (nonlinear_arith)
                    requires
                        0 <= ix <= dx <= 32768,
                        0 <= dy <= 32768,
                ;
                assert((1 + 2 * iy) * dx <= 65536 * 65536) by (nonlinear_arith)
                    requires
                        0 <= iy <= dy <= 32768,
                        0 <= dx <= 32768,
                ;
                assert(0 <= (1 + 2 * ix) * dy) by (nonlinear_arith)
                    requires
                        0 <= ix,
                        0 <= dy,
                ;
                assert(0 <= (1 + 2 * iy) * dx) by (nonlinear_arith)
                    requires
                        0 <= iy,
                        0 <= dx,
                ;
                let l = (1 + 2 * ix) * dy;
                let r = (1 + 2 * iy) * dx;
                if l < r {
                    ix += 1;
                } else if l > r {
                    iy += 1;
                } else {
                    ix += 1;
                    iy += 1;
                }
            }
            proof {
                assert(full =~= cells_pos(out@) + march(p.0 as int, p.1 as int, ux, uy, dx as int, dy as int, ix as int, iy as int));
            }
        }
        (out, clear)
    }

    /// Whether the cells `a` and `b` see each other: every cell that the ray between their
    /// centres passes through, both ends included, is open.
    pub fn line_of_sight(&self, a: (usize, usize), b: (usize, usize)) -> (r: bool)
        requires
            self.wf(),
            self.in_grid(a.0 as int, a.1 as int),
            self.in_grid(b.0 as int, b.1 as int),
        ensures
            r == self.sight_clear(pos(a), pos(b)),
    {
        let a_first = a.0 < b.0 || (a.0 == b.0 && a.1 <= b.1);
        let (p, q) = if a_first {
            (a, b)
        } else {
            (b, a)
        };
        let (_, clear) = self.walk_ray(p, q, true);
        proof {
            assert(ray_path(pos(a), pos(b)) == march_between(pos(p), pos(q)));
            if clear {
                assert forall|i: int| 0 <= i < ray_path(pos(a), pos(b)).len() implies self.open_at(
                    (#[trigger] ray_path(pos(a), pos(b))[i]).0,
                    ray_path(pos(a), pos(b))[i].1,
                ) by {
                    assert(ray_path(pos(a), pos(b))[i] == march_between(pos(p), pos(q))[i]);
                }
            } else {
                let i = choose|i: int|
                    0 <= i < march_between(pos(p), pos(q)).len() && !self.open_at(
                        (#[trigger] march_between(pos(p), pos(q))[i]).0,
                        march_between(pos(p), pos(q))[i].1,
                    );
                assert(ray_path(pos(a), pos(b))[i] == march_between(pos(p), pos(q))[i]);
            }
        }
        clear
    }

    /// The cells that the ray between `a` and `b` passes through, in order from whichever of
    /// the two comes first by `x`, then `y`: the cells that `line_of_sight` tests.
    pub fn ray_cells(&self, a: (usize, usize), b: (usize, usize)) -> (r: Vec<(usize, usize)>)
        requires
            self.wf(),
            self.in_grid(a.0 as int, a.1 as int),
            self.in_grid(b.0 as int, b.1 as int),
        ensures
            cells_pos(r@) == ray_path(pos(a), pos(b)),
    {
        let a_first = a.0 < b.0 || (a.0 == b.0 && a.1 <= b.1);
        let (p, q) = if a_first {
            (a, b)
        } else {
            (b, a)
        };
        let (cells, _) = self.walk_ray(p, q, false);
        cells
    }
}

} // verus!

use vstd::prelude::*;
use crate::grid::{GridMap, MAX_SIDE};

verus! {

pub open spec fn abs(a: int) -> int {
    if a >= 0 {
        a
    } else {
        -a
    }
}

/// Manhattan distance between `(a, b)` and `(x, y)`.
pub open spec fn l1_dist(a: int, b: int, x: int, y: int) -> int {
    abs(a - x) + abs(b - y)
}

/// Squared Euclidean distance between `(a, b)` and `(x, y)`.
pub open spec fn sq_dist(a: int, b: int, x: int, y: int) -> int {
    (a - x) * (a - x) + (b - y) * (b - y)
}

/// Clamps integer world-grid coordinates onto a `w x h` grid; the flag tells whether anything
/// had to be clamped.
pub fn clamp(x: i64, y: i64, w: usize, h: usize) -> (r: (usize, usize, bool))
    requires
        w >= 1,
        h >= 1,
    ensures
        r.0 == (if x < 0 { 0 } else if x < w { x as int } else { w - 1 }),
        r.1 == (if y < 0 { 0 } else if y < h { y as int } else { h - 1 }),
        r.2 == (x < 0 || x >= w || y < 0 || y >= h),
{
    let mut clamped = false;
    let cx: usize = if x < 0 {
        clamped = true;
        0
    } else if (x as u64) < (w as u64) {
        x as usize
    } else {
        clamped = true;
        w - 1
    };
    let cy: usize = if y < 0 {
        clamped = true;
        0
    } else if (y as u64) < (h as u64) {
        y as usize
    } else {
        clamped = true;
        h - 1
    };
    (cx, cy, clamped)
}

/// The position of offset `(dx, dy)` in the scan of its ring: rings are scanned by growing
/// `|dx|`, and for each by the offsets `(s, r-s)`, `(-s, r-s)`, `(s, -(r-s))`, `(-s, -(r-s))`.
pub open spec fn scan_rank(dx: int, dy: int) -> int {
    4 * abs(dx) + if dx >= 0 && dy >= 0 {
        0int
    } else if dx <= 0 && dy >= 0 {
        1int
    } else if dx >= 0 {
        2int
    } else {
        3int
    }
}

impl GridMap {
    /// `(a, b)` is a cell on the grid that is not a wall.
    pub open spec fn open_at(&self, a: int, b: int) -> bool {
        self.in_grid(a, b) && !(self.tile(a, b) is Wall)
    }

    /// The best open cell of the ring of Manhattan radius `r` around `(x, y)` among those whose
    /// `x` offset is below `s` in size: `best` is the nearest by Euclidean distance, `best_d`
    /// its squared distance.
    pub open spec fn ring_best_so_far(
        &self,
        x: int,
        y: int,
        r: int,
        s: int,
        best_d: u64,
        best: Option<(usize, usize)>,
    ) -> bool {
        &&& best is None ==> best_d == u64::MAX && forall|a: int, b: int|
            #![trigger self.open_at(a, b)]
            self.open_at(a, b) && l1_dist(a, b, x, y) == r && abs(a - x) < s ==> false
        &&& best matches Some(c) ==> {
            &&& self.open_at(c.0 as int, c.1 as int)
            &&& l1_dist(c.0 as int, c.1 as int, x, y) == r
            &&& best_d == sq_dist(c.0 as int, c.1 as int, x, y)
            &&& scan_rank(c.0 - x, c.1 - y) < 4 * s
            &&& forall|a: int, b: int|
                #![trigger self.open_at(a, b)]
                self.open_at(a, b) && l1_dist(a, b, x, y) == r && abs(a - x) < s && sq_dist(a, b, x, y)
                    == best_d ==> scan_rank(c.0 - x, c.1 - y) <= scan_rank(a - x, b - y)
        }
        &&& forall|a: int, b: int|
            #![trigger self.open_at(a, b)]
            self.open_at(a, b) && l1_dist(a, b, x, y) == r && abs(a - x) < s ==> best_d <= sq_dist(
                a,
                b,
                x,
                y,
            )
    }

    /// Weighs the cell at offset `(xo, yo)` from `(x, y)` against the best found so far.
    fn consider_offset(
        &self,
        x: usize,
        y: usize,
        xo: i64,
        yo: i64,
        best_d: u64,
        best: Option<(usize, usize)>,
    ) -> (r: (u64, Option<(usize, usize)>))
        requires
            self.wf(),
            self.in_grid(x as int, y as int),
            -2 * MAX_SIDE <= xo <= 2 * MAX_SIDE,
            -2 * MAX_SIDE <= yo <= 2 * MAX_SIDE,
        ensures
            ({
                let (a, b) = (x + xo, y + yo);
                if self.open_at(a, b) && sq_dist(a, b, x as int, y as int) < best_d {
                    r.0 == sq_dist(a, b, x as int, y as int) && r.1 == Some((a as usize, b as usize))
                } else {
                    r == (best_d, best)
                }
            }),
    {
        let x2 = x as i64 + xo;
        let y2 = y as i64 + yo;
        if !self.is_inside(x2, y2) {
            return (best_d, best);
        }
        if self.tile_at(x2 as usize, y2 as usize).is_wall() {
            return (best_d, best);
        }
        assert(0 <= xo * xo <= 65536 * 65536) by (nonlinear_arith)
            requires
                -65536 <= xo <= 65536,
        ;
        assert(0 <= yo * yo <= 65536 * 65536) by (nonlinear_arith)
            requires
                -65536 <= yo <= 65536,
        ;
        let d = (xo * xo + yo * yo) as u64;
        if d < best_d {
            (d, Some((x2 as usize, y2 as usize)))
        } else {
            (best_d, best)
        }
    }

    /// The cell an agent at `(x, y)` should head for: `(x, y)` itself when it is open, unless
    /// the position had to be clamped onto the grid, in which case there is no answer. From a
    /// wall, the open cells are searched ring by ring, by Manhattan radius `1, 2, ...` up to one
    /// less than the larger side of the grid; in the first ring that holds one, the cell nearest by Euclidean
    /// distance is returned, the first in scan order among equals.
    pub fn get_closest_traversable_location(&self, x: usize, y: usize, clamped: bool) -> (r: Option<(usize, usize)>)
        requires
            self.wf(),
            self.in_grid(x as int, y as int),
        ensures
            self.open_at(x as int, y as int) ==> r == (if clamped {
                None
            } else {
                Some((x, y))
            }),
            !self.open_at(x as int, y as int) ==> {
                let big = if self.width_spec() >= self.height_spec() {
                    self.width_spec()
                } else {
                    self.height_spec()
                };
                &&& r matches Some(c) ==> {
                    let rc = l1_dist(c.0 as int, c.1 as int, x as int, y as int);
                    &&& self.open_at(c.0 as int, c.1 as int)
                    &&& 1 <= rc < big
                    &&& forall|a: int, b: int|
                        #[trigger] self.open_at(a, b) ==> l1_dist(a, b, x as int, y as int) >= rc
                    &&& forall|a: int, b: int|
                        #[trigger] self.open_at(a, b) && l1_dist(a, b, x as int, y as int) == rc
                            ==> sq_dist(c.0 as int, c.1 as int, x as int, y as int) <= sq_dist(
                            a,
                            b,
                            x as int,
                            y as int,
                        )
                    &&& forall|a: int, b: int|
                        #[trigger] self.open_at(a, b) && l1_dist(a, b, x as int, y as int) == rc && sq_dist(
                            a,
                            b,
                            x as int,
                            y as int,
                        ) == sq_dist(c.0 as int, c.1 as int, x as int, y as int) ==> scan_rank(
                            c.0 - x,
                            c.1 - y,
                        ) <= scan_rank(a - x, b - y)
                }
                &&& r is None ==> forall|a: int, b: int|
                    #[trigger] self.open_at(a, b) ==> l1_dist(a, b, x as int, y as int) >= big
            },
    {
        if !self.tile_at(x, y).is_wall() {
            return if clamped {
                None
            } else {
                Some((x, y))
            };
        }
        let w = self.width() as usize;
        let h = self.height() as usize;
        let big: usize = if w >= h {
            w
        } else {
            h
        };
        let mut r: usize = 1;
        while r < big
            invariant
                self.wf(),
                self.in_grid(x as int, y as int),
                !self.open_at(x as int, y as int),
                big == (if self.width_spec() >= self.height_spec() {
                    self.width_spec()
                } else {
                    self.height_spec()
                }),
                big <= MAX_SIDE,
                1 <= r <= big,
                forall|a: int, b: int|
                    #[trigger] self.open_at(a, b) ==> l1_dist(a, b, x as int, y as int) >= r,
            decreases big - r,
        {
            let mut best_d: u64 = u64::MAX;
            let mut best: Option<(usize, usize)> = None;
            let mut s: usize = 0;
            while s <= r
                invariant
                    self.wf(),
                    self.in_grid(x as int, y as int),
                    1 <= r < big,
                    big <= MAX_SIDE,
                    s <= r + 1,
                    self.ring_best_so_far(x as int, y as int, r as int, s as int, best_d, best),
                decreases r + 1 - s,
            {
                let si = s as i64;
                let ri = (r - s) as i64;
                let ghost d0 = best_d;
                let (d1, b1) = self.consider_offset(x, y, si, ri, best_d, best);
                let (d2, b2) = self.consider_offset(x, y, -si, ri, d1, b1);
                let (d3, b3) = self.consider_offset(x, y, si, -ri, d2, b2);
                let (d4, b4) = self.consider_offset(x, y, -si, -ri, d3, b3);
                proof {
                    let xi = x as int;
                    let yi = y as int;
                    assert forall|a: int, b: int|
                        #![trigger self.open_at(a, b)]
                        self.open_at(a, b) && l1_dist(a, b, xi, yi) == r && abs(a - xi) < s + 1
                            implies d4 <= sq_dist(a, b, xi, yi) by {
                        if abs(a - xi) < s {
                        } else if a - xi == s && b - yi == r - s {
                        } else if a - xi == -s && b - yi == r - s {
                        } else if a - xi == s && b - yi == -(r - s) {
                        } else {
                            assert(a - xi == -s && b - yi == -(r - s));
                        }
                    }
                    let s_ = s as int;
                    let r_ = r as int;
                    assert(b1 matches Some(c) ==> scan_rank(c.0 - xi, c.1 - yi) <= 4 * s_);
                    assert(b2 matches Some(c) ==> scan_rank(c.0 - xi, c.1 - yi) <= 4 * s_ + 1);
                    assert(b3 matches Some(c) ==> scan_rank(c.0 - xi, c.1 - yi) <= 4 * s_ + 2);
                    assert(b4 matches Some(c) ==> scan_rank(c.0 - xi, c.1 - yi) <= 4 * s_ + 3);
                    if b4 is Some {
                        let c4 = b4.unwrap();
                        assert forall|a: int, b: int|
                            #![trigger self.open_at(a, b)]
                            self.open_at(a, b) && l1_dist(a, b, xi, yi) == r && abs(a - xi) < s + 1 && sq_dist(
                                a,
                                b,
                                xi,
                                yi,
                            ) == d4 implies scan_rank(c4.0 - xi, c4.1 - yi) <= scan_rank(a - xi, b - yi) by {
                            if abs(a - xi) < s {
                                assert(d0 <= sq_dist(a, b, xi, yi));
                                assert(d4 == d0);
                                assert(b4 == best);
                            } else if a - xi == s && b - yi == r - s {
                                assert(d1 <= sq_dist(a, b, xi, yi));
                                assert(b4 == b1);
                            } else if a - xi == -s && b - yi == r - s {
                                assert(d2 <= sq_dist(a, b, xi, yi));
                                assert(b4 == b2);
                            } else if a - xi == s && b - yi == -(r - s) {
                                assert(d3 <= sq_dist(a, b, xi, yi));
                                assert(b4 == b3);
                            } else {
                                assert(a - xi == -s && b - yi == -(r - s));
                            }
                        }
                    }
                    if b4 is None {
                        assert forall|a: int, b: int|
                            #![trigger self.open_at(a, b)]
                            self.open_at(a, b) && l1_dist(a, b, xi, yi) == r && abs(a - xi) < s + 1
                                implies false by {
                            assert(sq_dist(a, b, xi, yi) <= 2 * 65536 * 65536) by (nonlinear_arith)
                                requires
                                    abs(a - xi) <= 65536,
                                    abs(b - yi) <= 65536,
                            ;
                            if abs(a - xi) < s {
                            } else if a - xi == s && b - yi == r - s {
                            } else if a - xi == -s && b - yi == r - s {
                            } else if a - xi == s && b - yi == -(r - s) {
                            } else {
                                assert(a - xi == -s && b - yi == -(r - s));
                            }
                        }
                    }
                }
                best_d = d4;
                best = b4;
                s += 1;
            }
            if best.is_some() {
                return best;
            }
            proof {
                assert forall|a: int, b: int|
                    #[trigger] self.open_at(a, b) implies l1_dist(a, b, x as int, y as int) >= r + 1 by {
                    if l1_dist(a, b, x as int, y as int) == r {
                        assert(abs(a - x) < s);
                    }
                }
            }
            r += 1;
        }
        None
    }
}

} // verus!

use pathfinding::prelude::astar;
use vstd::prelude::*;
use crate::grid::{GridMap, EntityHandle, TileState, dir_offset};

verus! {

/// A cell of the grid as a vertex of the search graph.
#[derive(PartialEq, Eq, Hash, Clone, Copy, Debug, Structural)]
pub struct PathNode {
    pub x: i32,
    pub y: i32,
}

impl PathNode {
    pub fn new(x: i32, y: i32) -> (r: PathNode)
        ensures
            r == (PathNode { x, y }),
    {
        PathNode { x, y }
    }
}

/// An entity that moves over the map: the cell it is in.
#[derive(Clone, Copy, Debug)]
pub struct Navigator {
    pub x: usize,
    pub y: usize,
}

/// `|a - b|`.
pub fn abs_diff(a: i32, b: i32) -> (r: i64)
    ensures
        r == if a >= b { a - b } else { b - a },
{
    if a >= b {
        a as i64 - b as i64
    } else {
        b as i64 - a as i64
    }
}

pub open spec fn abs_diff_spec(a: int, b: int) -> int {
    if a >= b {
        a - b
    } else {
        b - a
    }
}

/// The octile estimate of the cost from `a` to `b` with straight and diagonal steps of cost one,
/// `(dx + dy) + (1 - 2) * min(dx, dy)`; without diagonal steps, the Manhattan one `dx + dy`.
pub open spec fn octile(a: PathNode, b: PathNode, allow_diagonals: bool) -> int {
    let dx = abs_diff_spec(a.x as int, b.x as int);
    let dy = abs_diff_spec(a.y as int, b.y as int);
    if allow_diagonals {
        (dx + dy) - if dx <= dy {
            dx
        } else {
            dy
        }
    } else {
        dx + dy
    }
}

/// The distance estimate used to guide the search, capped at `i32::MAX`.
pub fn heuristic_distance(a: &PathNode, b: &PathNode, allow_diagonals: bool) -> (r: i32)
    ensures
        r == if octile(*a, *b, allow_diagonals) > i32::MAX {
            i32::MAX as int
        } else {
            octile(*a, *b, allow_diagonals)
        },
{
    let dx = abs_diff(a.x, b.x);
    let dy = abs_diff(a.y, b.y);
    let m = if dx <= dy {
        dx
    } else {
        dy
    };
    let d = if allow_diagonals {
        (dx + dy) - m
    } else {
        dx + dy
    };
    if d > i32::MAX as i64 {
        i32::MAX
    } else {
        d as i32
    }
}

/// The estimate to `objective` from `p`, as the search asks for it.
pub fn estimate_to(p: &PathNode, objective: &PathNode) -> (r: i32)
    ensures
        r == if octile(*p, *objective, true) > i32::MAX {
            i32::MAX as int
        } else {
            octile(*p, *objective, true)
        },
{
    heuristic_distance(p, objective, true)
}

/// Whether the search has reached `objective`.
pub fn reached(p: &PathNode, objective: &PathNode) -> (r: bool)
    ensures
        r == (*p == *objective),
{
    p.x == objective.x && p.y == objective.y
}

/// The node at `(x, y)`.
pub open spec fn node_at(x: int, y: int) -> PathNode {
    PathNode { x: x as i32, y: y as i32 }
}

/// `b` is one of the eight neighbours of `a`.
pub open spec fn adjacent8(a: PathNode, b: PathNode) -> bool {
    a != b && abs_diff_spec(a.x as int, b.x as int) <= 1 && abs_diff_spec(a.y as int, b.y as int) <= 1
}

impl GridMap {
    /// `p` is an open cell of the grid.
    pub open spec fn open_node(&self, p: PathNode) -> bool {
        self.open_at(p.x as int, p.y as int)
    }

    /// The moves from `p`: each of its eight neighbours that is an open cell, at cost one, in
    /// the order up, down, left, right, then the diagonals. None from a cell off the grid.
    pub fn successors(&self, p: &PathNode) -> (r: Vec<(PathNode, i32)>)
        requires
            self.wf(),
        ensures
            r@.len() <= 8,
            forall|i: int|
                0 <= i < r@.len() ==> (#[trigger] r@[i]).1 == 1 && adjacent8(*p, r@[i].0)
                    && self.open_node(r@[i].0),
            forall|q: PathNode|
                self.in_grid(p.x as int, p.y as int) && adjacent8(*p, q) && #[trigger] self.open_node(q)
                    ==> exists|i: int| 0 <= i < r@.len() && #[trigger] r@[i].0 == q,
    {
        let mut out: Vec<(PathNode, i32)> = Vec::new();
        if p.x < 0 || p.y < 0 || !self.is_inside(p.x as i64, p.y as i64) {
            return out;
        }
        let x = p.x as usize;
        let y = p.y as usize;
        let mut k: usize = 0;
        while k < 8
            invariant
                self.wf(),
                self.in_grid(x as int, y as int),
                x == p.x,
                y == p.y,
                k <= 8,
                out@.len() <= k,
                forall|i: int|
                    0 <= i < out@.len() ==> (#[trigger] out@[i]).1 == 1 && adjacent8(*p, out@[i].0)
                        && self.open_node(out@[i].0),
                forall|j: int|
                    0 <= j < k && self.open_at(x + dir_offset(j).0, y + dir_offset(j).1) ==> exists|i: int|
                        0 <= i < out@.len() && #[trigger] out@[i].0 == node_at(x + dir_offset(j).0, y + dir_offset(j).1),
            decreases 8 - k,
        {
            let ghost o0 = out@;
            if let Some((nx, ny)) = self.resolve_neighbour(x, y, k) {
                if !self.tile_at(nx, ny).is_wall() {
                    out.push((PathNode { x: nx as i32, y: ny as i32 }, 1));
                }
            }
            proof {
                assert forall|j: int|
                    0 <= j < k + 1 && self.open_at(x + dir_offset(j).0, y + dir_offset(j).1) implies exists|i: int|
                        0 <= i < out@.len() && #[trigger] out@[i].0 == node_at(x + dir_offset(j).0, y + dir_offset(j).1) by {
                    if j < k {
                        let i = choose|i: int|
                            0 <= i < o0.len() && #[trigger] o0[i].0 == node_at(x + dir_offset(j).0, y + dir_offset(j).1);
                        assert(out@[i] == o0[i]);
                    } else {
                        assert(out@[o0.len() as int].0 == node_at(x + dir_offset(j).0, y + dir_offset(j).1));
                    }
                }
            }
            k += 1;
        }
        proof {
            assert forall|q: PathNode|
                adjacent8(*p, q) && #[trigger] self.open_node(q) implies exists|i: int|
                    0 <= i < out@.len() && #[trigger] out@[i].0 == q by {
                let dx = q.x - p.x;
                let dy = q.y - p.y;
                let j: int = if dx == 0 && dy == -1 {
                    0
                } else if dx == 0 && dy == 1 {
                    1
                } else if dx == -1 && dy == 0 {
                    2
                } else if dx == 1 && dy == 0 {
                    3
                } else if dx == -1 && dy == -1 {
                    4
                } else if dx == 1 && dy == -1 {
                    5
                } else if dx == -1 && dy == 1 {
                    6
                } else {
                    7
                };
                assert(dir_offset(j) == (dx, dy));
                assert(q == node_at(x + dir_offset(j).0, y + dir_offset(j).1));
            }
        }
        out
    }
}

/// `route` leads from `origin` to `objective` over `g` in steps to one of the eight
/// neighbours, each onto an open cell.
pub open spec fn route_ok(g: &GridMap, route: Seq<PathNode>, origin: PathNode, objective: PathNode) -> bool {
    &&& route.len() >= 1
    &&& route[0] == origin
    &&& route.last() == objective
    &&& forall|i: int|
        0 <= i < route.len() - 1 ==> adjacent8(#[trigger] route[i], route[i + 1]) && g.open_node(
            route[i + 1],
        )
}

/// A route and its cost as mathematical values.
pub open spec fn route_view(r: Option<(Vec<PathNode>, i32)>) -> Option<(Seq<PathNode>, int)> {
    match r {
        Some((p, c)) => Some((p@, c as int)),
        None => None,
    }
}

/// What the search returns on a grid with these tiles between these two cells.
pub uninterp spec fn astar_route(cells: Seq<Seq<TileState>>, origin: PathNode, objective: PathNode) -> Option<
    (Seq<PathNode>, int),
>;

/// Relies on pathfinding's `astar`: a shortest path from `origin` to a node where `reached`
/// holds, with its total cost, both ends included, each step to one of the successors; `None`
/// only when there is none. The estimate `estimate_to` never exceeds the true number of steps,
/// as the shortest result requires. Its hashing is deterministic, so the result depends on the
/// tiles and the two cells alone.
#[verifier::external_body]
fn search_route(map: &GridMap, origin: PathNode, objective: PathNode) -> (r: Option<(Vec<PathNode>, i32)>)
    requires
        map.wf(),
        map.in_grid(origin.x as int, origin.y as int),
        map.in_grid(objective.x as int, objective.y as int),
    ensures
        route_view(r) == astar_route(map.cells(), origin, objective),
        r matches Some((p, c)) ==> route_ok(map, p@, origin, objective) && c == p@.len() - 1,
        (exists|q: Seq<PathNode>| route_ok(map, q, origin, objective)) ==> r is Some,
        r matches Some((p, c)) ==> forall|q: Seq<PathNode>|
            route_ok(map, q, origin, objective) ==> c <= q.len() - 1,
{
    astar(&origin, |p| map.successors(p), |p| estimate_to(p, &objective), |p| reached(p, &objective))
}

/// The working state of one entity's journey over a map: where it goes, the route once found,
/// the step it is on and when that step began (in milliseconds of some clock).
pub struct Path {
    pub map_entity: EntityHandle,
    pub objective: PathNode,
    pub origin: PathNode,
    pub path: Option<(Vec<PathNode>, i32)>,
    pub path_i: Option<usize>,
    pub start_time: Option<u64>,
}

impl Path {
    pub open spec fn origin_spec(&self) -> PathNode {
        self.origin
    }

    pub open spec fn objective_spec(&self) -> PathNode {
        self.objective
    }

    /// A journey from `origin` to `objective` on the map `map_entity`, with no route yet.
    pub fn new(map_entity: EntityHandle, objective: PathNode, origin: PathNode) -> (r: Path)
        ensures
            r.map_entity == map_entity,
            r.objective_spec() == objective,
            r.origin_spec() == origin,
            r.path is None,
            r.path_i is None,
            r.start_time is None,
    {
        Path { map_entity, objective, origin, path: None, path_i: None, start_time: None }
    }

    pub fn origin(&self) -> (r: PathNode)
        ensures
            r == self.origin_spec(),
    {
        self.origin
    }

    pub fn objective(&self) -> (r: PathNode)
        ensures
            r == self.objective_spec(),
    {
        self.objective
    }

    /// Searches a route on `map` unless one was found already. When both ends lie on the grid
    /// the route is what the search returns: a shortest one, found whenever one exists; the
    /// step index then starts at zero.
    pub fn run(&mut self, map: &GridMap)
        requires
            map.wf(),
        ensures
            old(self).path is Some ==> *final(self) == *old(self),
            old(self).path is None ==> {
                let (o, t) = (old(self).origin_spec(), old(self).objective_spec());
                &&& final(self).map_entity == old(self).map_entity
                &&& final(self).origin_spec() == o
                &&& final(self).objective_spec() == t
                &&& final(self).start_time == old(self).start_time
                &&& route_view(final(self).path) == if map.in_grid(o.x as int, o.y as int) && map.in_grid(
                    t.x as int,
                    t.y as int,
                ) {
                    astar_route(map.cells(), o, t)
                } else {
                    None
                }
                &&& final(self).path matches Some((p, c)) ==> route_ok(map, p@, o, t) && c == p@.len() - 1
                &&& final(self).path matches Some((p, c)) ==> forall|q: Seq<PathNode>|
                    route_ok(map, q, o, t) ==> c <= q.len() - 1
                &&& (map.in_grid(o.x as int, o.y as int) && map.in_grid(t.x as int, t.y as int) && exists|
                    q: Seq<PathNode>,
                | route_ok(map, q, o, t)) ==> final(self).path is Some
                &&& final(self).path_i == if final(self).path is Some {
                    Some(0usize)
                } else {
                    None
                }
            },
    {
        if self.path.is_none() {
            let o = self.origin;
            let t = self.objective;
            let inside = o.x >= 0 && o.y >= 0 && t.x >= 0 && t.y >= 0 && map.is_inside(o.x as i64, o.y as i64)
                && map.is_inside(t.x as i64, t.y as i64);
            let found = if inside {
                search_route(map, o, t)
            } else {
                None
            };
            match found {
                Some(route) => {
                    self.path = Some(route);
                    self.path_i = Some(0);
                },
                None => {
                    self.path = None;
                    self.path_i = None;
                },
            }
        }
    }
}

impl Path {
    /// Whether the map this journey runs on is among `live_maps`; a journey whose map is gone
    /// is to be dropped.
    pub fn map_is_live(&self, live_maps: &[EntityHandle]) -> (r: bool)
        ensures
            r == live_maps@.contains(self.map_entity),
    {
        let mut i: usize = 0;
        while i < live_maps.len()
            invariant
                i <= live_maps@.len(),
                forall|k: int| 0 <= k < i ==> live_maps@[k] != self.map_entity,
            decreases live_maps@.len() - i,
        {
            if live_maps[i] == self.map_entity {
                return true;
            }
            i += 1;
        }
        false
    }

    /// The step index, when a route has been found and the end is not yet reached.
    pub open spec fn current_step(&self) -> Option<int> {
        match (self.path, self.path_i) {
            (Some((p, _)), Some(i)) => if i < p@.len() {
                Some(i as int)
            } else {
                None
            },
            _ => None,
        }
    }

    /// The segment being travelled: from the cell `nav` stands in (on the first step) or the
    /// previous node of the route, to the node of the current step. `None` before a route is
    /// found and after the end is reached.
    pub fn segment(&self, nav: &Navigator) -> (r: Option<(PathNode, PathNode)>)
        requires
            nav.x <= i32::MAX,
            nav.y <= i32::MAX,
        ensures
            r is None <==> self.current_step() is None,
            self.current_step() matches Some(i) ==> {
                let p = self.path.unwrap().0@;
                r == Some(
                    (
                        if i == 0 {
                            PathNode { x: nav.x as i32, y: nav.y as i32 }
                        } else {
                            p[i - 1]
                        },
                        p[i],
                    ),
                )
            },
    {
        match (&self.path, self.path_i) {
            (Some((p, _)), Some(i)) => {
                if i >= p.len() {
                    return None;
                }
                let prev = if i == 0 {
                    PathNode { x: nav.x as i32, y: nav.y as i32 }
                } else {
                    p[i - 1]
                };
                Some((prev, p[i]))
            },
            _ => None,
        }
    }

    /// One tick of travel at time `now`, for a segment that takes `travel_time` to cross. The
    /// time spent on the current step runs from its recorded start, or is zero when none is
    /// recorded; once it reaches `travel_time` the next step begins, starting now. Returns the
    /// step travelled and the time spent on it, capped at `travel_time`, for placing the entity
    /// along the segment; `None`, changing nothing, before a route is found and once arrived.
    pub fn advance(&mut self, now: u64, travel_time: u64) -> (r: Option<(usize, u64)>)
        ensures
            final(self).map_entity == old(self).map_entity,
            final(self).origin == old(self).origin,
            final(self).objective == old(self).objective,
            final(self).path == old(self).path,
            old(self).current_step() is None ==> r is None && *final(self) == *old(self),
            old(self).current_step() matches Some(i) ==> {
                let start = match old(self).start_time {
                    Some(t) => t as int,
                    None => now as int,
                };
                let elapsed = if now >= start { now - start } else { 0 };
                &&& r == Some(
                    (i as usize, (if elapsed <= travel_time { elapsed } else { travel_time as int }) as u64),
                )
                &&& if elapsed >= travel_time {
                    final(self).path_i == Some((i + 1) as usize) && final(self).start_time == Some(now)
                } else {
                    final(self).path_i == old(self).path_i && final(self).start_time == old(self).start_time
                }
            },
    {
        let i = match (&self.path, self.path_i) {
            (Some((p, _)), Some(i)) => {
                if i >= p.len() {
                    return None;
                }
                i
            },
            _ => {
                return None;
            },
        };
        let start = match self.start_time {
            Some(t) => t,
            None => now,
        };
        let elapsed = if now >= start {
            now - start
        } else {
            0
        };
        if elapsed >= travel_time {
            self.path_i = Some(i + 1);
            self.start_time = Some(now);
        }
        let lerp = if elapsed <= travel_time {
            elapsed
        } else {
            travel_time
        };
        Some((i, lerp))
    }
}

/// Searching twice on grids with the same tiles, between the same cells, finds the same route at
/// the same cost.
pub proof fn lemma_search_deterministic(g1: &GridMap, g2: &GridMap, origin: PathNode, objective: PathNode)
    requires
        g1.cells() == g2.cells(),
    ensures
        astar_route(g1.cells(), origin, objective) == astar_route(g2.cells(), origin, objective),
{
}

/// Along a found route the cost spent so far never decreases: after `i` steps it is `i`, and the
/// whole route costs its number of steps.
pub proof fn lemma_route_cost_monotone(g: &GridMap, route: Seq<PathNode>, cost: int, origin: PathNode, objective: PathNode, i: int, j: int)
    requires
        route_ok(g, route, origin, objective),
        cost == route.len() - 1,
        0 <= i <= j < route.len(),
    ensures
        i <= j <= cost,
        forall|k: int| 0 <= k < route.len() - 1 ==> adjacent8(#[trigger] route[k], route[k + 1]),
{
}

} // verus!

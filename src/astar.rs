use vstd::prelude::*;
use crate::models::{TileType, traversable};
use crate::grid::{Coords, Node, TileTypeInformation, cells, cell, in_grid, manhattan, well_formed, lemma_cells};

verus! {

/// One move from `a` to `b`: `b` is in `a`'s neighbor list, lies in the grid
/// and is traversable now.
pub open spec fn step(g: Seq<Seq<Node>>, a: Coords, b: Coords) -> bool {
    &&& in_grid(g, a)
    &&& cell(g, a).neighbors@.contains(b)
    &&& in_grid(g, b)
    &&& traversable(cell(g, b).ttype)
}

/// A walk that starts at `start` and makes only legal moves.
pub open spec fn is_walk(g: Seq<Seq<Node>>, start: Coords, p: Seq<Coords>) -> bool {
    &&& p.len() >= 1
    &&& p[0] == start
    &&& forall|i: int| 0 <= i < p.len() - 1 ==> #[trigger] step(g, p[i], p[i + 1])
}

/// A walk from `start` that ends on an `Exit` cell.
pub open spec fn exit_walk(g: Seq<Seq<Node>>, start: Coords, p: Seq<Coords>) -> bool {
    &&& is_walk(g, start, p)
    &&& in_grid(g, p.last())
    &&& cell(g, p.last()).ttype == TileType::Exit
}

/// `d` moves is the least that takes `start` to an exit.
pub open spec fn shortest(g: Seq<Seq<Node>>, start: Coords, d: nat) -> bool {
    &&& exists|p: Seq<Coords>| exit_walk(g, start, p) && p.len() == d + 1
    &&& forall|p: Seq<Coords>| exit_walk(g, start, p) ==> p.len() >= d + 1
}

/// No walk takes `start` to an exit.
pub open spec fn no_exit_walk(g: Seq<Seq<Node>>, start: Coords) -> bool {
    forall|p: Seq<Coords>| !exit_walk(g, start, p)
}

/// Every `Exit` cell of the grid is among `goals`.
pub open spec fn covers_exits(g: Seq<Seq<Node>>, goals: Seq<Coords>) -> bool {
    forall|y: int, x: int|
        0 <= y < g.len() && 0 <= x < g[y].len() && (#[trigger] g[y][x]).ttype == TileType::Exit
            ==> goals.contains(Coords { x: x as usize, y: y as usize })
}

/// What a route search reads of each cell: its kind and its neighbor list.
pub open spec fn layout(g: Seq<Seq<Node>>) -> Seq<Seq<(TileType, Seq<Coords>)>> {
    g.map_values(|r: Seq<Node>| r.map_values(|n: Node| (n.ttype, n.neighbors@)))
}

/// The route that the A* search of the `pathfinding` crate returns on a grid of
/// this layout; its hashing is unseeded, so the route depends on these
/// arguments alone.
pub uninterp spec fn astar_route(layout: Seq<Seq<(TileType, Seq<Coords>)>>, start: Coords, goals: Seq<Coords>) -> Seq<Coords>;

/// Every goal lies in the grid.
pub open spec fn goals_in_grid(g: Seq<Seq<Node>>, goals: Seq<Coords>) -> bool {
    forall|i: int| 0 <= i < goals.len() ==> in_grid(g, #[trigger] goals[i])
}

/// The moves out of `c`: each traversable neighbor, at cost one.
fn successors(map: &Vec<Vec<Node>>, c: &Coords) -> (r: Vec<(Coords, u64)>)
    ensures
        in_grid(cells(map), *c) ==> forall|i: int| 0 <= i < r@.len() ==> (#[trigger] r@[i]).1 == 1 && step(cells(map), *c, r@[i].0),
{
    proof { lemma_cells(map); }
    let mut out: Vec<(Coords, u64)> = Vec::new();
    if c.y >= map.len() || c.x >= map[c.y].len() {
        return out;
    }
    let ns = &map[c.y][c.x].neighbors;
    let mut i: usize = 0;
    while i < ns.len()
        invariant
            in_grid(cells(map), *c),
            *ns == cell(cells(map), *c).neighbors,
            cells(map).len() == map@.len(),
            forall|yy: int| #![trigger cells(map)[yy]] #![trigger map@[yy]]
                0 <= yy < map@.len() ==> cells(map)[yy] == map@[yy]@,
            forall|k: int| 0 <= k < out@.len() ==> (#[trigger] out@[k]).1 == 1 && step(cells(map), *c, out@[k].0),
        decreases ns@.len() - i,
    {
        let n = ns[i];
        assert(ns@.contains(n));
        if n.y < map.len() && n.x < map[n.y].len() && map[n.y][n.x].is_traversable() {
            out.push((n, 1));
        }
        i += 1;
    }
    out
}

/// The least Manhattan distance from `c` to one of `goals` (saturated at
/// `u64::MAX`), or zero when there are none.
fn manhattan_to_goals(goals: &Vec<Coords>, c: &Coords) -> (r: u64)
    ensures
        forall|i: int| 0 <= i < goals@.len() ==> r <= manhattan(#[trigger] goals@[i], *c),
{
    let mut best: u64 = u64::MAX;
    let mut i: usize = 0;
    while i < goals.len()
        invariant
            0 <= i <= goals@.len(),
            forall|k: int| 0 <= k < i ==> best <= manhattan(#[trigger] goals@[k], *c),
        decreases goals@.len() - i,
    {
        let g = goals[i];
        let dx: u64 = if g.x >= c.x { (g.x - c.x) as u64 } else { (c.x - g.x) as u64 };
        let dy: u64 = if g.y >= c.y { (g.y - c.y) as u64 } else { (c.y - g.y) as u64 };
        let d: u64 = dx.saturating_add(dy);
        if d < best {
            best = d;
        }
        i += 1;
    }
    if goals.len() == 0 {
        0
    } else {
        best
    }
}

/// Whether `c` is an `Exit` cell of the grid.
fn is_exit(map: &Vec<Vec<Node>>, c: &Coords) -> (r: bool)
    ensures
        r == (in_grid(cells(map), *c) && cell(cells(map), *c).ttype == TileType::Exit),
{
    proof { lemma_cells(map); }
    c.y < map.len() && c.x < map[c.y].len() && map[c.y][c.x].ttype == TileType::Exit
}

/// Relies on pathfinding::directed::astar::astar: it returns a path that
/// includes both ends, runs from `start` through `successors` to a node that
/// `success` accepts, with its total cost, least among all such paths when the
/// heuristic never exceeds the remaining cost; `None` when no such node can be
/// reached; the same arguments give the same path. Here every move costs one and the heuristic is the Manhattan
/// distance to the nearest goal, which one move changes by exactly one, and
/// with all goals and cells inside a grid of sides below `MAX_SIDE` no cost or
/// estimate comes near `u64::MAX`.
#[verifier::external_body]
fn astar_search(start: &Coords, map: &Vec<Vec<Node>>, goals: &Vec<Coords>) -> (r: Option<(Vec<Coords>, u64)>)
    requires
        well_formed(cells(map)),
        in_grid(cells(map), *start),
        covers_exits(cells(map), goals@),
        goals_in_grid(cells(map), goals@),
    ensures
        r matches Some((p, cost)) ==> exit_walk(cells(map), *start, p@) && cost == p@.len() - 1
            && forall|q: Seq<Coords>| exit_walk(cells(map), *start, q) ==> q.len() >= p@.len(),
        r matches Some((p, cost)) ==> p@ == astar_route(layout(cells(map)), *start, goals@),
        r is None ==> no_exit_walk(cells(map), *start),
{
    pathfinding::directed::astar::astar(
        start,
        |c| successors(map, c),
        |c| manhattan_to_goals(goals, c),
        |c| is_exit(map, c),
    )
}

/// Shortest walk from `start` to an exit under the current tile kinds: its
/// number of moves and the cells of one such walk.
pub fn astar(start: &Coords, map: &Vec<Vec<Node>>, goals: &Vec<Coords>) -> (r: Option<(u64, Vec<Coords>)>)
    requires
        well_formed(cells(map)),
        in_grid(cells(map), *start),
        covers_exits(cells(map), goals@),
        goals_in_grid(cells(map), goals@),
    ensures
        r is None <==> no_exit_walk(cells(map), *start),
        r matches Some((d, p)) ==> shortest(cells(map), *start, d as nat) && exit_walk(cells(map), *start, p@)
            && p@.len() == d + 1 && p@ == astar_route(layout(cells(map)), *start, goals@),
{
    match astar_search(start, map, goals) {
        Some((path, cost)) => {
            assert(exit_walk(cells(map), *start, path@));
            Some((cost, path))
        },
        None => {
            None
        },
    }
}

} // verus!

use vstd::prelude::*;
use crate::models::{TileType, traversable};
use crate::grid::{Coords, Node, TileTypeInformation, cells, cell, in_grid, well_formed, same_shape, lemma_cells,
    reset_nodes, rectangular};
use vstd::set_lib::{set_int_range, lemma_int_range, lemma_len_subset};
use crate::astar::{step, is_walk, exit_walk, shortest, no_exit_walk};
use crate::grid::contains_coord;

verus! {

/// `a` and `b` agree on everything but the breadth-first scratch fields.
pub open spec fn same_layout(a: Seq<Seq<Node>>, b: Seq<Seq<Node>>) -> bool {
    &&& same_shape(a, b)
    &&& forall|y: int, x: int|
        0 <= y < a.len() && 0 <= x < a[y].len() ==> {
            let m = #[trigger] a[y][x];
            let n = b[y][x];
            m.x == n.x && m.y == n.y && m.ttype == n.ttype && m.neighbors == n.neighbors
        }
}

proof fn lemma_same_layout_walks(a: Seq<Seq<Node>>, b: Seq<Seq<Node>>, start: Coords)
    requires
        same_layout(a, b),
    ensures
        forall|c: Coords, d: Coords| #[trigger] step(a, c, d) == step(b, c, d),
        forall|p: Seq<Coords>| #[trigger] exit_walk(a, start, p) == exit_walk(b, start, p),
        forall|d: nat| #[trigger] shortest(a, start, d) == shortest(b, start, d),
        no_exit_walk(a, start) == no_exit_walk(b, start),
{
    assert forall|c: Coords, d: Coords| #[trigger] step(a, c, d) == step(b, c, d) by {
        if c.y < a.len() {
            assert(a[c.y as int].len() == b[c.y as int].len());
        }
        if d.y < a.len() {
            assert(a[d.y as int].len() == b[d.y as int].len());
        }
    }
    assert forall|p: Seq<Coords>| #[trigger] exit_walk(a, start, p) == exit_walk(b, start, p) by {
        if p.len() >= 1 && p.last().y < a.len() {
            assert(a[p.last().y as int].len() == b[p.last().y as int].len());
        }
        if is_walk(a, start, p) {
            assert forall|i: int| 0 <= i < p.len() - 1 implies #[trigger] step(b, p[i], p[i + 1]) by {
                assert(step(a, p[i], p[i + 1]));
            }
        }
        if is_walk(b, start, p) {
            assert forall|i: int| 0 <= i < p.len() - 1 implies #[trigger] step(a, p[i], p[i + 1]) by {
                assert(step(b, p[i], p[i + 1]));
            }
        }
    }
    assert forall|d: nat| #[trigger] shortest(a, start, d) == shortest(b, start, d) by {
        if shortest(a, start, d) {
            let p = choose|p: Seq<Coords>| exit_walk(a, start, p) && p.len() == d + 1;
            assert(exit_walk(b, start, p));
            assert forall|q: Seq<Coords>| exit_walk(b, start, q) implies q.len() >= d + 1 by {
                assert(exit_walk(a, start, q));
            }
        }
        if shortest(b, start, d) {
            let p = choose|p: Seq<Coords>| exit_walk(b, start, p) && p.len() == d + 1;
            assert(exit_walk(a, start, p));
            assert forall|q: Seq<Coords>| exit_walk(a, start, q) implies q.len() >= d + 1 by {
                assert(exit_walk(b, start, q));
            }
        }
    }
    if no_exit_walk(a, start) {
        assert forall|q: Seq<Coords>| !exit_walk(b, start, q) by {
            assert(!exit_walk(a, start, q));
        }
    }
    if no_exit_walk(b, start) {
        assert forall|q: Seq<Coords>| !exit_walk(a, start, q) by {
            assert(!exit_walk(b, start, q));
        }
    }
}

/// Facts of a breadth-first search in progress over `g`, whose layout is that
/// of `g0`: `q` is the visiting order and the first `head` cells are expanded.
pub open spec fn frontier_ok(g0: Seq<Seq<Node>>, g: Seq<Seq<Node>>, q: Seq<Coords>, head: int, start: Coords) -> bool {
    &&& same_layout(g, g0)
    &&& q.len() >= 1
    &&& q[0] == start
    &&& 0 <= head <= q.len()
    &&& forall|i: int| 0 <= i < q.len() ==> in_grid(g0, #[trigger] q[i]) && cell(g, q[i]).visited
        && cell(g, q[i]).distance <= i
    &&& forall|c: Coords| in_grid(g0, c) && (#[trigger] cell(g, c)).visited ==> q.contains(c)
    &&& forall|i: int, j: int| 0 <= i <= j < q.len() ==> cell(g, #[trigger] q[i]).distance <= cell(g, #[trigger] q[j]).distance
    &&& forall|i: int, k: int|
        0 <= i < head && 0 <= k < cell(g0, q[i]).neighbors@.len() ==> {
            let n = #[trigger] cell(g0, #[trigger] q[i]).neighbors@[k];
            traversable(cell(g0, n).ttype) ==> cell(g, n).visited && cell(g, n).distance <= cell(g, q[i]).distance + 1
        }
    &&& forall|i: int| 0 <= i < head ==> cell(g0, #[trigger] q[i]).ttype != TileType::Exit
}

proof fn lemma_walk_bound(g0: Seq<Seq<Node>>, g: Seq<Seq<Node>>, q: Seq<Coords>, head: int, start: Coords, w: Seq<Coords>, k: int)
    requires
        frontier_ok(g0, g, q, head, start),
        well_formed(g0),
        is_walk(g0, start, w),
        0 <= k < w.len(),
    ensures
        (head < q.len() && k >= cell(g, q[head]).distance) || (cell(g, w[k]).distance <= k && exists|i: int|
            0 <= i < head && q[i] == w[k]),
    decreases k,
{
    if k == 0 {
        if head > 0 {
            assert(q[0] == w[0]);
        } else {
            assert(cell(g, q[0]).distance <= 0);
        }
    } else {
        lemma_walk_bound(g0, g, q, head, start, w, k - 1);
        if head < q.len() && k - 1 >= cell(g, q[head]).distance {
        } else {
            let i = choose|i: int| 0 <= i < head && q[i] == w[k - 1];
            let j0 = k - 1;
            assert(step(g0, w[j0], w[j0 + 1]));
            let nb = cell(g0, q[i]).neighbors@;
            assert(nb.contains(w[k]));
            let kk = choose|kk: int| 0 <= kk < nb.len() && nb[kk] == w[k];
            assert(cell(g0, q[i]).neighbors@[kk] == w[k]);
            assert(cell(g, w[k]).visited);
            assert(q.contains(w[k]));
            let j = choose|j: int| 0 <= j < q.len() && q[j] == w[k];
            if j >= head {
                assert(cell(g, q[head]).distance <= cell(g, q[j]).distance);
            }
        }
    }
}

/// `n` is a neighbor of `c` one step closer to the start by the recorded
/// distances, visited, and not the start itself.
pub open spec fn steps_back(g: Seq<Seq<Node>>, c: Coords, n: Coords) -> bool {
    &&& cell(g, c).neighbors@.contains(n)
    &&& in_grid(g, n)
    &&& cell(g, n).visited
    &&& cell(g, n).distance + 1 == cell(g, c).distance
    &&& cell(g, n).distance != 0
}

/// Adds to `path` the cells before `node` on shortest walks, as the recorded
/// distances show them: each neighbor one closer to the start than the cell
/// it leads from, the start itself left out, each cell once.
pub fn collect_dfs_path(node: &Coords, map: &Vec<Vec<Node>>, path: &mut Vec<Coords>)
    requires
        well_formed(cells(map)),
        in_grid(cells(map), *node),
    ensures
        final(path)@.len() >= old(path)@.len(),
        final(path)@.subrange(0, old(path)@.len() as int) == old(path)@,
        forall|i: int|
            old(path)@.len() <= i < final(path)@.len() ==> {
                let c = #[trigger] final(path)@[i];
                in_grid(cells(map), c) && cell(cells(map), c).visited && 0 < cell(cells(map), c).distance
                    < cell(cells(map), *node).distance
            },
        forall|n: Coords| #[trigger] steps_back(cells(map), *node, n) ==> final(path)@.contains(n),
        forall|i: int, n: Coords|
            old(path)@.len() <= i < final(path)@.len() && #[trigger] steps_back(cells(map), final(path)@[i], n)
                ==> final(path)@.contains(n),
    decreases cell(cells(map), *node).distance,
{
    proof { lemma_cells(map); }
    let ghost g = cells(map);
    let ghost prefix = path@;
    let d = map[node.y][node.x].distance;
    if d == 0 {
        return;
    }
    let n = map[node.y][node.x].neighbors.len();
    let mut k: usize = 0;
    while k < n
        invariant
            g == cells(map),
            well_formed(g),
            in_grid(g, *node),
            g.len() == map@.len(),
            forall|yy: int| #![trigger g[yy]] #![trigger map@[yy]] 0 <= yy < map@.len() ==> g[yy] == map@[yy]@,
            d == cell(g, *node).distance,
            d > 0,
            n == cell(g, *node).neighbors@.len(),
            path@.len() >= prefix.len(),
            path@.subrange(0, prefix.len() as int) == prefix,
            forall|i: int|
                prefix.len() <= i < path@.len() ==> {
                    let c = #[trigger] path@[i];
                    in_grid(g, c) && cell(g, c).visited && 0 < cell(g, c).distance < d
                },
            0 <= k <= n,
            forall|kk: int|
                0 <= kk < k ==> (steps_back(g, *node, #[trigger] cell(g, *node).neighbors@[kk]) ==> path@.contains(
                    cell(g, *node).neighbors@[kk],
                )),
            forall|i: int, m: Coords|
                prefix.len() <= i < path@.len() && #[trigger] steps_back(g, path@[i], m) ==> path@.contains(m),
        decreases n - k,
    {
        let c = map[node.y][node.x].neighbors[k];
        assert(in_grid(g, c)) by {
            let nb = cell(g, *node).neighbors@;
            assert(nb[k as int] == c);
        }
        let nb_visited = map[c.y][c.x].visited;
        let nb_dist = map[c.y][c.x].distance;
        let present = contains_coord(path, &c);
        if nb_visited && nb_dist == d - 1 && nb_dist != 0 && !present {
            let ghost before = path@;
            path.push(c);
            assert(path@.subrange(0, prefix.len() as int) =~= before.subrange(0, prefix.len() as int));
            let ghost mid = path@;
            collect_dfs_path(&c, map, path);
            assert(path@.subrange(0, prefix.len() as int) =~= mid.subrange(0, mid.len() as int).subrange(0, prefix.len() as int));
            assert forall|i: int| prefix.len() <= i < path@.len() implies {
                let e = #[trigger] path@[i];
                in_grid(g, e) && cell(g, e).visited && 0 < cell(g, e).distance < d
            } by {
                if i < mid.len() {
                    assert(path@.subrange(0, mid.len() as int)[i] == mid[i]);
                }
            }
            proof {
                assert forall|x: Coords| before.contains(x) implies path@.contains(x) by {
                    let j = choose|j: int| 0 <= j < before.len() && before[j] == x;
                    assert(mid[j] == x);
                    assert(path@.subrange(0, mid.len() as int)[j] == mid[j]);
                }
                assert(mid[mid.len() - 1] == c);
                assert(path@.subrange(0, mid.len() as int)[mid.len() - 1] == c);
                assert(path@.contains(c));
                assert forall|i: int, m: Coords|
                    prefix.len() <= i < path@.len() && #[trigger] steps_back(g, path@[i], m) implies path@.contains(m) by {
                    if i < before.len() {
                        assert(path@.subrange(0, mid.len() as int)[i] == mid[i]);
                        assert(mid[i] == before[i]);
                        assert(before.contains(m));
                    } else if i == before.len() {
                        assert(path@.subrange(0, mid.len() as int)[i] == mid[i]);
                    }
                }
            }
        } else {
            proof {
                if steps_back(g, *node, c) {
                    assert(present);
                }
            }
        }
        k += 1;
    }
}

proof fn lemma_index_injective(w: int, y1: int, x1: int, y2: int, x2: int)
    requires
        0 <= x1 < w,
        0 <= x2 < w,
        0 <= y1,
        0 <= y2,
        y1 * w + x1 == y2 * w + x2,
    ensures
        y1 == y2 && x1 == x2,
{
    if y1 < y2 {
        assert(y1 * w + w <= y2 * w) by (nonlinear_arith)
            requires y1 < y2, 0 <= w;
    } else if y2 < y1 {
        assert(y2 * w + w <= y1 * w) by (nonlinear_arith)
            requires y2 < y1, 0 <= w;
    }
}

/// A sequence of distinct cells of a rectangular grid is no longer than the
/// grid has cells.
proof fn lemma_queue_bound(g: Seq<Seq<Node>>, q: Seq<Coords>)
    requires
        rectangular(g),
        g.len() > 0,
        q.no_duplicates(),
        forall|i: int| 0 <= i < q.len() ==> in_grid(g, #[trigger] q[i]),
    ensures
        q.len() <= g.len() * g[0].len(),
{
    let w = g[0].len() as int;
    let h = g.len() as int;
    let s = q.map_values(|c: Coords| c.y * w + c.x);
    assert forall|i: int, j: int| 0 <= i < s.len() && 0 <= j < s.len() && i != j implies s[i] != s[j] by {
        assert(g[q[i].y as int].len() == w);
        assert(g[q[j].y as int].len() == w);
        if s[i] == s[j] {
            lemma_index_injective(w, q[i].y as int, q[i].x as int, q[j].y as int, q[j].x as int);
        }
    }
    assert(s.no_duplicates());
    s.unique_seq_to_set();
    assert forall|v: int| s.to_set().contains(v) implies set_int_range(0, h * w).contains(v) by {
        let i = choose|i: int| 0 <= i < s.len() && s[i] == v;
        let c = q[i];
        assert(g[c.y as int].len() == w);
        let (yy, xx) = (c.y as int, c.x as int);
        assert(yy * w + xx < h * w) by (nonlinear_arith)
            requires 0 <= yy < h, 0 <= xx < w;
        assert(0 <= yy * w + xx) by (nonlinear_arith)
            requires 0 <= yy, 0 <= xx, 0 <= w;
    }
    assert(h * w >= 0) by (nonlinear_arith)
        requires 0 <= h, 0 <= w;
    lemma_int_range(0, h * w);
    lemma_len_subset(s.to_set(), set_int_range(0, h * w));
}

/// `b` is `a` with cell `n` marked visited at distance `d`.
pub open spec fn marked(a: Seq<Seq<Node>>, b: Seq<Seq<Node>>, n: Coords, d: u64) -> bool {
    &&& same_shape(a, b)
    &&& in_grid(a, n)
    &&& cell(b, n) == (Node { visited: true, distance: d, ..cell(a, n) })
    &&& forall|y: int, x: int|
        0 <= y < a.len() && 0 <= x < a[y].len() && !(y == n.y && x == n.x) ==> #[trigger] b[y][x] == a[y][x]
}

proof fn lemma_push(
    g0: Seq<Seq<Node>>,
    g: Seq<Seq<Node>>,
    g2: Seq<Seq<Node>>,
    q: Seq<Coords>,
    head: int,
    start: Coords,
    c: Coords,
    n: Coords,
)
    requires
        well_formed(g0),
        frontier_ok(g0, g, q, head, start),
        head < q.len(),
        q[head] == c,
        forall|j: int| 0 <= j < q.len() ==> cell(g, #[trigger] q[j]).distance <= cell(g, c).distance + 1,
        in_grid(g0, n),
        !cell(g, n).visited,
        cell(g, c).distance < u64::MAX,
        marked(g, g2, n, (cell(g, c).distance + 1) as u64),
    ensures
        frontier_ok(g0, g2, q.push(n), head, start),
        forall|j: int| 0 <= j < q.len() + 1 ==> cell(g2, #[trigger] q.push(n)[j]).distance <= cell(g2, c).distance + 1,
        cell(g2, c) == cell(g, c),
        forall|m: Coords| in_grid(g0, m) && #[trigger] cell(g, m).visited ==> cell(g2, m) == cell(g, m),
        forall|m: Coords| in_grid(g0, m) ==> #[trigger] cell(g2, m).visited == (cell(g, m).visited || m == n),
{
    let q2 = q.push(n);
    assert(!q.contains(n));
    assert forall|m: Coords| in_grid(g0, m) && #[trigger] cell(g, m).visited implies cell(g2, m) == cell(g, m) by {
        assert(m != n);
        assert(g[m.y as int].len() == g0[m.y as int].len());
    }
    assert forall|m: Coords| in_grid(g0, m) implies #[trigger] cell(g2, m).visited == (cell(g, m).visited || m == n) by {
        assert(g[m.y as int].len() == g0[m.y as int].len());
    }
    assert(cell(g, c).visited);
    assert forall|i: int| 0 <= i < q.len() implies #[trigger] cell(g2, q[i]) == cell(g, q[i]) by {
        assert(cell(g, q[i]).visited);
    }
    assert(cell(g, c).distance <= head);
    assert forall|i: int| 0 <= i < q2.len() implies in_grid(g0, #[trigger] q2[i]) && cell(g2, q2[i]).visited
        && cell(g2, q2[i]).distance <= i by {
        if i < q.len() {
            assert(q2[i] == q[i]);
        }
    }
    assert forall|m: Coords| in_grid(g0, m) && (#[trigger] cell(g2, m)).visited implies q2.contains(m) by {
        if m == n {
            assert(q2[q.len() as int] == n);
        } else {
            assert(q.contains(m));
            let i = choose|i: int| 0 <= i < q.len() && q[i] == m;
            assert(q2[i] == m);
        }
    }
    assert forall|i: int, j: int| 0 <= i <= j < q2.len() implies cell(g2, #[trigger] q2[i]).distance <= cell(g2, #[trigger] q2[j]).distance by {
        if j < q.len() {
            assert(q2[i] == q[i] && q2[j] == q[j]);
        } else if i < q.len() {
            assert(q2[i] == q[i]);
        }
    }
    assert forall|i: int, k: int|
        0 <= i < head && 0 <= k < cell(g0, q2[i]).neighbors@.len() implies {
            let m = #[trigger] cell(g0, #[trigger] q2[i]).neighbors@[k];
            traversable(cell(g0, m).ttype) ==> cell(g2, m).visited && cell(g2, m).distance <= cell(g2, q2[i]).distance + 1
        } by {
        assert(q2[i] == q[i]);
        let m = cell(g0, q[i]).neighbors@[k];
        if traversable(cell(g0, m).ttype) {
            assert(cell(g, m).visited);
            assert(in_grid(g0, m));
        }
    }
    assert forall|i: int| 0 <= i < head implies cell(g0, #[trigger] q2[i]).ttype != TileType::Exit by {
        assert(q2[i] == q[i]);
    }
    assert forall|y: int, x: int| 0 <= y < g2.len() && 0 <= x < g2[y].len() implies {
        let a = #[trigger] g2[y][x];
        let b = g0[y][x];
        a.x == b.x && a.y == b.y && a.ttype == b.ttype && a.neighbors == b.neighbors
    } by {
        let a = g[y][x];
        assert(a.x == g0[y][x].x && a.ttype == g0[y][x].ttype && a.neighbors == g0[y][x].neighbors);
        if y == n.y && x == n.x {
            assert(g2[y][x] == cell(g2, n));
        }
    }
    assert(same_shape(g2, g0)) by {
        assert forall|y: int| 0 <= y < g2.len() implies (#[trigger] g2[y]).len() == g0[y].len() by {
            assert(g[y].len() == g0[y].len());
        }
    }
    assert(same_layout(g2, g0));
    assert forall|j: int| 0 <= j < q.len() + 1 implies cell(g2, #[trigger] q2[j]).distance <= cell(g2, c).distance + 1 by {
        if j < q.len() {
            assert(q2[j] == q[j]);
        }
    }
}

/// Each visited cell `q[i]` is reached by the walk `walks[i]`, one cell longer
/// than its recorded distance.
pub open spec fn walks_ok(g0: Seq<Seq<Node>>, g: Seq<Seq<Node>>, q: Seq<Coords>, walks: Seq<Seq<Coords>>, start: Coords) -> bool {
    &&& walks.len() == q.len()
    &&& forall|i: int|
        0 <= i < walks.len() ==> is_walk(g0, start, #[trigger] walks[i]) && walks[i].last() == q[i]
            && walks[i].len() == cell(g, q[i]).distance + 1
}

proof fn lemma_layout_well_formed(a: Seq<Seq<Node>>, b: Seq<Seq<Node>>)
    requires
        same_layout(a, b),
        well_formed(b),
    ensures
        well_formed(a),
{
    assert(rectangular(a)) by {
        assert forall|y: int| 0 <= y < a.len() implies (#[trigger] a[y]).len() == a[0].len() && a[y].len() < crate::grid::MAX_SIDE by {
            assert(b[y].len() == b[0].len());
        }
    }
    assert forall|y: int, x: int, i: int|
        0 <= y < a.len() && 0 <= x < a[y].len() && 0 <= i < a[y][x].neighbors@.len() implies {
            let c = #[trigger] a[y][x].neighbors@[i];
            in_grid(a, c) && crate::grid::manhattan(Coords { x: x as usize, y: y as usize }, c) == 1
        } by {
        assert(a[y][x].neighbors == b[y][x].neighbors);
        let c = b[y][x].neighbors@[i];
        assert(in_grid(b, c));
        assert(a[c.y as int].len() == b[c.y as int].len());
    }
    assert forall|y: int, x: int| 0 <= y < a.len() && 0 <= x < a[y].len() implies (#[trigger] a[y][x]).x == x && a[y][x].y == y by {
        assert(b[y][x].x == x);
    }
}

proof fn lemma_layout_trans(a: Seq<Seq<Node>>, b: Seq<Seq<Node>>, c: Seq<Seq<Node>>)
    requires
        same_layout(a, b),
        same_layout(b, c),
    ensures
        same_layout(a, c),
{
    assert forall|y: int| 0 <= y < a.len() implies (#[trigger] a[y]).len() == c[y].len() by {
        assert(b[y].len() == c[y].len());
    }
    assert forall|y: int, x: int| 0 <= y < a.len() && 0 <= x < a[y].len() implies {
        let m = #[trigger] a[y][x];
        let n = c[y][x];
        m.x == n.x && m.y == n.y && m.ttype == n.ttype && m.neighbors == n.neighbors
    } by {
        assert(b[y][x].x == c[y][x].x);
    }
}

proof fn lemma_found(g0: Seq<Seq<Node>>, g: Seq<Seq<Node>>, q: Seq<Coords>, walks: Seq<Seq<Coords>>, head: int, start: Coords)
    requires
        well_formed(g0),
        frontier_ok(g0, g, q, head, start),
        walks_ok(g0, g, q, walks, start),
        head < q.len(),
        cell(g0, q[head]).ttype == TileType::Exit,
    ensures
        shortest(g0, start, cell(g, q[head]).distance as nat),
{
    let d = cell(g, q[head]).distance as nat;
    assert(exit_walk(g0, start, walks[head]));
    assert forall|w: Seq<Coords>| exit_walk(g0, start, w) implies w.len() >= d + 1 by {
        lemma_walk_bound(g0, g, q, head, start, w, w.len() - 1);
    }
}

proof fn lemma_exhausted(g0: Seq<Seq<Node>>, g: Seq<Seq<Node>>, q: Seq<Coords>, start: Coords)
    requires
        well_formed(g0),
        frontier_ok(g0, g, q, q.len() as int, start),
    ensures
        no_exit_walk(g0, start),
{
    assert forall|w: Seq<Coords>| !exit_walk(g0, start, w) by {
        if exit_walk(g0, start, w) {
            lemma_walk_bound(g0, g, q, q.len() as int, start, w, w.len() - 1);
        }
    }
}

/// Breadth-first search from `start_node` over the current tile kinds: the
/// length of a shortest walk to an exit, with the cells that lie on shortest
/// walks to the exit reached first; `None` when no exit can be reached. Only
/// the cells' scratch fields change.
pub fn dfs(start_node: &Coords, map: &mut Vec<Vec<Node>>, node_count: usize) -> (r: Option<(u64, Vec<Coords>)>)
    requires
        well_formed(cells(old(map))),
        in_grid(cells(old(map)), *start_node),
    ensures
        same_layout(cells(final(map)), cells(old(map))),
        r is None <==> no_exit_walk(cells(old(map)), *start_node),
        r matches Some((d, p)) ==> shortest(cells(old(map)), *start_node, d as nat) && forall|i: int|
            0 <= i < p@.len() ==> in_grid(cells(old(map)), #[trigger] p@[i]) && 0 < cell(cells(final(map)), p@[i]).distance < d,
        r matches Some((d, p)) ==> exists|e: Coords|
            in_grid(cells(final(map)), e) && cell(cells(final(map)), e).ttype == TileType::Exit && cell(cells(final(map)), e).distance == d
                && forall|n: Coords| #[trigger] steps_back(cells(final(map)), e, n) ==> p@.contains(n),
        r matches Some((d, p)) ==> forall|i: int, n: Coords|
            0 <= i < p@.len() && #[trigger] steps_back(cells(final(map)), p@[i], n) ==> p@.contains(n),
{
    let ghost g_old = cells(map);
    reset_nodes(map);
    proof { lemma_cells(map); }
    let ghost g0 = cells(map);
    proof {
        assert(same_layout(g0, g_old));
        lemma_layout_well_formed(g0, g_old);
        lemma_same_layout_walks(g0, g_old, *start_node);
        assert(g0[start_node.y as int].len() == g_old[start_node.y as int].len());
    }
    let mut queue: Vec<Coords> = Vec::with_capacity(node_count);
    map[start_node.y][start_node.x].visited = true;
    queue.push(*start_node);
    let ghost mut walks: Seq<Seq<Coords>> = seq![seq![*start_node]];
    proof {
        lemma_cells(map);
        let g = cells(map);
        assert(marked(g0, g, *start_node, 0));
        assert forall|m: Coords| in_grid(g0, m) && (#[trigger] cell(g, m)).visited implies queue@.contains(m) by {
            assert(g0[m.y as int].len() == g[m.y as int].len());
            if m != *start_node {
                assert(!cell(g0, m).visited);
            }
            assert(queue@[0] == *start_node);
        }
        assert forall|y: int, x: int| 0 <= y < g.len() && 0 <= x < g[y].len() implies {
            let a = #[trigger] g[y][x];
            let b = g0[y][x];
            a.x == b.x && a.y == b.y && a.ttype == b.ttype && a.neighbors == b.neighbors
        } by {
            if y == start_node.y && x == start_node.x {
                assert(g[y][x] == cell(g, *start_node));
            }
        }
        assert(same_shape(g, g0)) by {
            assert forall|y: int| 0 <= y < g.len() implies (#[trigger] g[y]).len() == g0[y].len() by {
                assert(g0[y].len() == g[y].len());
            }
        }
        assert(frontier_ok(g0, g, queue@, 0, *start_node));
        assert(walks[0].last() == queue@[0]);
        assert(walks_ok(g0, g, queue@, walks, *start_node));
    }
    let mut head: usize = 0;
    while head < queue.len()
        invariant
            well_formed(g0),
            g0.len() > 0,
            in_grid(g0, *start_node),
            same_layout(g0, g_old),
            g_old == cells(old(map)),
            frontier_ok(g0, cells(map), queue@, head as int, *start_node),
            walks_ok(g0, cells(map), queue@, walks, *start_node),
            queue@.no_duplicates(),
            map@.len() == g0.len(),
            cells(map).len() == map@.len(),
            forall|yy: int| #![trigger cells(map)[yy]] #![trigger map@[yy]] 0 <= yy < map@.len() ==> cells(map)[yy] == map@[yy]@,
            head < queue@.len() ==> forall|j: int|
                0 <= j < queue@.len() ==> cell(cells(map), #[trigger] queue@[j]).distance <= cell(cells(map), queue@[head as int]).distance + 1,
        decreases g0.len() * g0[0].len() - head,
    {
        proof {
            lemma_queue_bound(g0, queue@);
            let (hh, ww) = (g0.len() as int, g0[0].len() as int);
            assert(hh * ww <= 0x8000_0000 * 0x8000_0000) by (nonlinear_arith)
                requires 0 <= hh <= 0x8000_0000, 0 <= ww <= 0x8000_0000;
        }
        let c = queue[head];
        assert(in_grid(g0, c));
        assert(map@[c.y as int]@.len() == g0[c.y as int].len());
        if map[c.y][c.x].ttype == TileType::Exit {
            let distance = map[c.y][c.x].distance;
            let mut path: Vec<Coords> = Vec::new();
            proof {
                lemma_layout_well_formed(cells(map), g0);
                lemma_found(g0, cells(map), queue@, walks, head as int, *start_node);
            }
            collect_dfs_path(&c, map, &mut path);
            proof {
                assert(in_grid(cells(map), c));
                assert(cell(cells(map), c).ttype == TileType::Exit);
                lemma_layout_trans(cells(map), g0, g_old);
                lemma_same_layout_walks(g0, g_old, *start_node);
                let dn = distance as nat;
                assert(shortest(g_old, *start_node, dn));
                let wit = choose|p: Seq<Coords>| exit_walk(g_old, *start_node, p) && p.len() == dn + 1;
                assert(!no_exit_walk(g_old, *start_node));
                assert forall|i: int| 0 <= i < path@.len() implies in_grid(g_old, #[trigger] path@[i]) by {
                    let e = path@[i];
                    assert(in_grid(cells(map), e));
                    assert(cells(map)[e.y as int].len() == g_old[e.y as int].len());
                }
            }
            return Some((distance, path));
        }
        let n_count = map[c.y][c.x].neighbors.len();
        let ghost dc = cell(cells(map), c).distance;
        let mut k: usize = 0;
        while k < n_count
            invariant
                well_formed(g0),
                g0.len() > 0,
                in_grid(g0, *start_node),
                same_layout(g0, g_old),
                frontier_ok(g0, cells(map), queue@, head as int, *start_node),
                walks_ok(g0, cells(map), queue@, walks, *start_node),
                queue@.no_duplicates(),
                map@.len() == g0.len(),
                cells(map).len() == map@.len(),
                forall|yy: int| #![trigger cells(map)[yy]] #![trigger map@[yy]] 0 <= yy < map@.len() ==> cells(map)[yy] == map@[yy]@,
                head < queue@.len(),
                queue@[head as int] == c,
                in_grid(g0, c),
                dc == cell(cells(map), c).distance,
                dc <= head,
                head < 0x4000_0000_0000_0000,
                cell(g0, c).ttype != TileType::Exit,
                n_count == cell(g0, c).neighbors@.len(),
                forall|j: int| 0 <= j < queue@.len() ==> cell(cells(map), #[trigger] queue@[j]).distance <= dc + 1,
                forall|kk: int|
                    0 <= kk < k ==> {
                        let m = #[trigger] cell(g0, c).neighbors@[kk];
                        traversable(cell(g0, m).ttype) ==> cell(cells(map), m).visited && cell(cells(map), m).distance <= dc + 1
                    },
            decreases n_count - k,
        {
            let m = map[c.y][c.x].neighbors[k];
            proof {
                assert(cell(g0, c).neighbors == cell(cells(map), c).neighbors);
                assert(m == cell(g0, c).neighbors@[k as int]);
                assert(in_grid(g0, m));
                assert(map@[m.y as int]@.len() == g0[m.y as int].len());
            }
            if !map[m.y][m.x].visited && map[m.y][m.x].is_traversable() {
                let d = map[c.y][c.x].distance + 1;
                let ghost g_before = cells(map);
                map[m.y][m.x].visited = true;
                map[m.y][m.x].distance = d;
                proof {
                    lemma_cells(map);
                    let g2 = cells(map);
                    assert forall|y: int, x: int|
                        0 <= y < g_before.len() && 0 <= x < g_before[y].len() && !(y == m.y && x == m.x)
                        implies #[trigger] g2[y][x] == g_before[y][x] by {
                    }
                    assert(same_shape(g_before, g2)) by {
                        assert forall|y: int| 0 <= y < g_before.len() implies (#[trigger] g_before[y]).len() == g2[y].len() by {
                        }
                    }
                    assert(marked(g_before, g2, m, d));
                    lemma_push(g0, g_before, g2, queue@, head as int, *start_node, c, m);
                }
                let ghost q_before = queue@;
                queue.push(m);
                proof {
                    let g2 = cells(map);
                    let nw = walks[head as int].push(m);
                    let wl = walks[head as int];
                    assert(wl.last() == c);
                    assert(cell(g0, c).neighbors@.contains(m)) by {
                        assert(cell(g0, c).neighbors@[k as int] == m);
                    }
                    assert(step(g0, c, m));
                    assert forall|i: int| 0 <= i < nw.len() - 1 implies #[trigger] step(g0, nw[i], nw[i + 1]) by {
                        if i < wl.len() - 1 {
                            assert(step(g0, wl[i], wl[i + 1]));
                        }
                    }
                    walks = walks.push(nw);
                    assert forall|i: int| 0 <= i < walks.len() implies is_walk(g0, *start_node, #[trigger] walks[i]) && walks[i].last() == queue@[i]
                        && walks[i].len() == cell(g2, queue@[i]).distance + 1 by {
                        if i < q_before.len() {
                            assert(queue@[i] == q_before[i]);
                            assert(cell(g_before, q_before[i]).visited);
                        }
                    }
                    assert(queue@.no_duplicates()) by {
                        assert(!q_before.contains(m));
                        assert forall|i: int, j: int| 0 <= i < queue@.len() && 0 <= j < queue@.len() && i != j implies queue@[i] != queue@[j] by {
                            if i < q_before.len() && j < q_before.len() {
                            } else if i < q_before.len() {
                                assert(queue@[i] == q_before[i]);
                            } else if j < q_before.len() {
                                assert(queue@[j] == q_before[j]);
                            }
                        }
                    }
                    assert forall|kk: int| 0 <= kk < k implies {
                        let mm = #[trigger] cell(g0, c).neighbors@[kk];
                        traversable(cell(g0, mm).ttype) ==> cell(g2, mm).visited && cell(g2, mm).distance <= dc + 1
                    } by {
                        let mm = cell(g0, c).neighbors@[kk];
                        assert(in_grid(g0, mm));
                    }
                }
            } else {
                proof {
                    let g = cells(map);
                    if traversable(cell(g0, m).ttype) {
                        assert(cell(g, m).visited);
                        assert(queue@.contains(m));
                        let j = choose|j: int| 0 <= j < queue@.len() && queue@[j] == m;
                        assert(cell(g, queue@[j]).distance <= dc + 1);
                    }
                }
            }
            k += 1;
        }
        proof {
            let g = cells(map);
            assert forall|i: int, kk: int|
                0 <= i < head + 1 && 0 <= kk < cell(g0, queue@[i]).neighbors@.len() implies {
                    let n = #[trigger] cell(g0, #[trigger] queue@[i]).neighbors@[kk];
                    traversable(cell(g0, n).ttype) ==> cell(g, n).visited && cell(g, n).distance <= cell(g, queue@[i]).distance + 1
                } by {
                if i == head {
                    let n = cell(g0, c).neighbors@[kk];
                    assert(cell(g0, c).neighbors@[kk] == n);
                }
            }
            if head + 1 < queue@.len() {
                assert forall|j: int| 0 <= j < queue@.len() implies cell(g, #[trigger] queue@[j]).distance <= cell(g, queue@[head + 1]).distance + 1 by {
                    assert(cell(g, queue@[head as int]).distance <= cell(g, queue@[head + 1]).distance);
                }
            }
        }
        head += 1;
    }
    proof {
        lemma_exhausted(g0, cells(map), queue@, *start_node);
        lemma_same_layout_walks(g0, g_old, *start_node);
        lemma_layout_trans(cells(map), g0, g_old);
    }
    None
}

} // verus!

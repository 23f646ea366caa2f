use vstd::prelude::*;
use crate::models::{TileType, buildable};
use crate::grid::{Coords, Node, TileTypeInformation, cells, cell, in_grid, well_formed, rectangular, positioned,
    links_adjacent, lemma_cells};
use crate::grid::contains_coord;
use crate::astar::{astar, shortest, no_exit_walk, covers_exits, goals_in_grid, astar_route, layout};

verus! {

#[verifier::external_type_specification]
#[verifier::external_body]
pub struct ExInstant(std::time::Instant);

/// Relies on std::time::Instant::now: a reading of the monotonic clock.
#[verifier::external_body]
fn clock_now() -> (r: std::time::Instant) {
    std::time::Instant::now()
}

/// Relies on std::time::Instant::elapsed: the time passed since `since`.
#[verifier::external_body]
fn clock_elapsed(since: &std::time::Instant) -> (r: std::time::Duration) {
    since.elapsed()
}

/// What a search hands back: every placement tied for the longest shortest
/// walk, that walk's length, the number of configurations scored, and the time
/// the search took.
pub struct BuilderResult {
    pub duration: std::time::Duration,
    pub best_towers: Vec<Vec<Coords>>,
    pub best_dist: Option<u64>,
    pub combinations: u64,
}

/// The grid with a tower on each cell of `p`.
pub open spec fn occupy(g: Seq<Seq<Node>>, p: Seq<Coords>) -> Seq<Seq<Node>> {
    Seq::new(
        g.len(),
        |y: int|
            Seq::new(
                g[y].len(),
                |x: int|
                    if p.contains(Coords { x: x as usize, y: y as usize }) {
                        Node { ttype: TileType::Occupied, ..g[y][x] }
                    } else {
                        g[y][x]
                    },
            ),
    )
}

/// Every cell of `p` lies in the grid, is buildable there, and appears once.
pub open spec fn legal(g: Seq<Seq<Node>>, p: Seq<Coords>) -> bool {
    &&& forall|i: int| 0 <= i < p.len() ==> in_grid(g, #[trigger] p[i]) && buildable(cell(g, p[i]).ttype)
    &&& forall|i: int, j: int| 0 <= i < p.len() && 0 <= j < p.len() && i != j ==> p[i] != p[j]
}

/// The evolving part of a search: configurations scored, placements tied for
/// the best length, that length, and per budget left the cells found
/// unproductive.
pub type SearchState = (u64, Seq<Seq<Coords>>, Option<u64>, Seq<Seq<Coords>>);

pub open spec fn bump(n: u64) -> u64 {
    if n < u64::MAX {
        (n + 1) as u64
    } else {
        n
    }
}

/// Scores `placed` at length `d`: it replaces the best placements when it is
/// the first or longer, joins them when equal, and is dropped when shorter.
pub open spec fn record(st: SearchState, placed: Seq<Coords>, d: u64) -> SearchState {
    if st.2 is None || d > st.2->0 {
        (st.0, seq![placed], Some(d), st.3)
    } else if st.2 == Some(d) {
        (st.0, st.1.push(placed), st.2, st.3)
    } else {
        st
    }
}

/// `c` was found unproductive with `tl` or more towers left.
pub open spec fn seen(processed: Seq<Seq<Coords>>, tl: int, max: int, c: Coords) -> bool {
    exists|l: int| tl <= l <= max && (#[trigger] processed[l]).contains(c)
}

/// The search from state `st` with exactly the cells of `placed` occupied and
/// `tl` towers left.
pub open spec fn search(
    orig: Seq<Seq<Node>>,
    start: Coords,
    goals: Seq<Coords>,
    max: u64,
    st: SearchState,
    placed: Seq<Coords>,
    tl: u64,
) -> SearchState
    decreases tl, 1int, 0int,
{
    let st1 = (bump(st.0), st.1, st.2, st.3);
    let g = occupy(orig, placed);
    if no_exit_walk(g, start) {
        if tl > 0 && placed.len() > 0 {
            (st1.0, st1.1, st1.2, st1.3.update(tl as int, st1.3[tl as int].push(placed.last())))
        } else {
            st1
        }
    } else {
        let route = astar_route(layout(g), start, goals);
        let st2 = record(st1, placed, (route.len() - 1) as u64);
        if tl == 0 {
            st2
        } else {
            search_loop(orig, start, goals, max, st2, placed, tl, route, 0)
        }
    }
}

/// The candidate loop of `search` from the `i`-th cell of `route` on: each
/// cell not yet found unproductive and buildable now is tried with one more
/// tower, then marked unproductive at this budget, and the marks one level
/// down are dropped.
pub open spec fn search_loop(
    orig: Seq<Seq<Node>>,
    start: Coords,
    goals: Seq<Coords>,
    max: u64,
    st: SearchState,
    placed: Seq<Coords>,
    tl: u64,
    route: Seq<Coords>,
    i: int,
) -> SearchState
    decreases tl, 0int, route.len() - i,
{
    if i < 0 || i >= route.len() || tl == 0 {
        st
    } else {
        let c = route[i];
        let g = occupy(orig, placed);
        if seen(st.3, tl as int, max as int, c) || !in_grid(g, c) || !buildable(cell(g, c).ttype) {
            search_loop(orig, start, goals, max, st, placed, tl, route, i + 1)
        } else {
            let st2 = search(orig, start, goals, max, st, placed.push(c), (tl - 1) as u64);
            let after_mark = st2.3.update(tl as int, st2.3[tl as int].push(c));
            let after_clear = if tl > 1 {
                after_mark.update(tl - 1, seq![])
            } else {
                after_mark
            };
            search_loop(orig, start, goals, max, (st2.0, st2.1, st2.2, after_clear), placed, tl, route, i + 1)
        }
    }
}

/// The whole search on grid `g` from `start` with budget `max`: goals are the
/// exit cells in row-major order, nothing is placed or recorded yet.
pub open spec fn search_outcome(g: Seq<Seq<Node>>, start: Coords, max: u64) -> SearchState {
    search(
        g,
        start,
        crate::grid::hits(g, TileType::Exit, g.len() as int),
        max,
        (0, seq![], None, Seq::new((max + 1) as nat, |l: int| Seq::<Coords>::empty())),
        seq![],
        max,
    )
}

/// Search state: the budget, the configurations scored, the best walk length
/// so far with the placements that reach it, for each budget left the cells
/// found unproductive, and the exit cells.
struct CutoffMeta {
    max_towers: u64,
    combinations: u64,
    best_towers: Vec<Vec<Coords>>,
    best_dist: Option<u64>,
    processed_coords: Vec<Vec<Coords>>,
    goals: Vec<Coords>,
}

impl CutoffMeta {
    spec fn state(&self) -> SearchState {
        (
            self.combinations,
            self.best_towers@.map_values(|v: Vec<Coords>| v@),
            self.best_dist,
            self.processed_coords@.map_values(|v: Vec<Coords>| v@),
        )
    }

    /// Each recorded placement is legal on `orig`, within budget, and reaches
    /// the recorded best length.
    spec fn valid(&self, orig: Seq<Seq<Node>>, start: Coords) -> bool {
        &&& self.processed_coords@.len() == self.max_towers + 1
        &&& covers_exits(orig, self.goals@)
        &&& goals_in_grid(orig, self.goals@)
        &&& (self.best_dist is None <==> self.best_towers@.len() == 0)
        &&& forall|i: int|
            0 <= i < self.best_towers@.len() ==> legal(orig, (#[trigger] self.best_towers@[i])@)
                && self.best_towers@[i]@.len() <= self.max_towers
                && shortest(occupy(orig, self.best_towers@[i]@), start, self.best_dist->0 as nat)
    }
}

proof fn lemma_occupy(g: Seq<Seq<Node>>, p: Seq<Coords>, goals: Seq<Coords>)
    requires
        well_formed(g),
        covers_exits(g, goals),
    ensures
        well_formed(occupy(g, p)),
        covers_exits(occupy(g, p), goals),
        goals_in_grid(g, goals) ==> goals_in_grid(occupy(g, p), goals),
        occupy(g, p).len() == g.len(),
        forall|y: int| 0 <= y < g.len() ==> (#[trigger] occupy(g, p)[y]).len() == g[y].len(),
{
    let o = occupy(g, p);
    assert(rectangular(o)) by {
        assert forall|y: int| 0 <= y < o.len() implies (#[trigger] o[y]).len() == o[0].len() && o[y].len() < crate::grid::MAX_SIDE by {
            assert(g[y].len() == g[0].len());
        }
    }
    assert(positioned(o)) by {
        assert forall|y: int, x: int| 0 <= y < o.len() && 0 <= x < o[y].len() implies (#[trigger] o[y][x]).x == x && o[y][x].y == y by {
            assert(g[y][x].x == x);
        }
    }
    assert(links_adjacent(o)) by {
        assert forall|y: int, x: int, i: int|
            0 <= y < o.len() && 0 <= x < o[y].len() && 0 <= i < o[y][x].neighbors@.len() implies {
                let c = #[trigger] o[y][x].neighbors@[i];
                in_grid(o, c) && crate::grid::manhattan(Coords { x: x as usize, y: y as usize }, c) == 1
            } by {
            assert(o[y][x].neighbors == g[y][x].neighbors);
            assert(g[y][x].neighbors@[i] == o[y][x].neighbors@[i]);
        }
    }
    assert forall|y: int, x: int|
        0 <= y < o.len() && 0 <= x < o[y].len() && (#[trigger] o[y][x]).ttype == TileType::Exit implies goals.contains(
            Coords { x: x as usize, y: y as usize },
        ) by {
        assert(g[y][x].ttype == TileType::Exit);
    }
}

/// Whether `c` was found unproductive with `towers_left` or more towers left.
fn already_processed(processed: &Vec<Vec<Coords>>, towers_left: u64, max_towers: u64, c: &Coords) -> (r: bool)
    requires
        processed@.len() == max_towers + 1,
        towers_left <= max_towers,
    ensures
        r == exists|l: int| towers_left <= l <= max_towers && (#[trigger] processed@[l])@.contains(*c),
{
    let n = processed.len();
    let mut l: usize = towers_left as usize;
    while l < n
        invariant
            n == processed@.len(),
            processed@.len() == max_towers + 1,
            towers_left <= l <= n,
            forall|k: int| towers_left <= k < l ==> !(#[trigger] processed@[k])@.contains(*c),
        decreases n - l,
    {
        if contains_coord(&processed[l], c) {
            return true;
        }
        l += 1;
    }
    false
}

fn copy_placement(v: &Vec<Coords>) -> (r: Vec<Coords>)
    ensures
        r@ == v@,
{
    let mut out: Vec<Coords> = Vec::with_capacity(v.len());
    let mut i: usize = 0;
    while i < v.len()
        invariant
            0 <= i <= v@.len(),
            out@ == v@.subrange(0, i as int),
        decreases v@.len() - i,
    {
        out.push(v[i].copy());
        i += 1;
        assert(out@ =~= v@.subrange(0, i as int));
    }
    assert(v@.subrange(0, v@.len() as int) =~= v@);
    out
}

/// Scores the configuration in which exactly the cells of `placed_towers`
/// hold towers, records it if it ties or beats the best so far, and, with
/// towers left, tries one more tower on each cell of the walk found that is
/// buildable and not yet found unproductive, restoring the cell afterwards.
fn cutoff_recursive(
    start: &Coords,
    map: &mut Vec<Vec<Node>>,
    meta: &mut CutoffMeta,
    placed_towers: &Vec<Coords>,
    towers_left: u64,
    Ghost(orig): Ghost<Seq<Seq<Node>>>,
)
    requires
        well_formed(orig),
        in_grid(orig, *start),
        old(meta).valid(orig, *start),
        cells(old(map)) == occupy(orig, placed_towers@),
        legal(orig, placed_towers@),
        placed_towers@.len() + towers_left == old(meta).max_towers,
    ensures
        cells(final(map)) == cells(old(map)),
        final(meta).state() == search(
            orig,
            *start,
            old(meta).goals@,
            old(meta).max_towers,
            old(meta).state(),
            placed_towers@,
            towers_left,
        ),
        final(meta).valid(orig, *start),
        final(meta).max_towers == old(meta).max_towers,
        final(meta).goals@ == old(meta).goals@,
        old(meta).best_dist matches Some(d0) ==> final(meta).best_dist matches Some(d1) && d1 >= d0,
        no_exit_walk(cells(old(map)), *start) ==> final(meta).best_dist == old(meta).best_dist
            && final(meta).best_towers@ == old(meta).best_towers@,
        !no_exit_walk(cells(old(map)), *start) ==> final(meta).best_dist is Some,
        forall|d: nat| shortest(cells(old(map)), *start, d) ==> (final(meta).best_dist matches Some(d1) && d1 >= d),
        final(meta).combinations >= 1,
        towers_left == 0 && old(meta).best_dist is None ==> final(meta).best_towers@.len() <= 1 && (
        final(meta).best_towers@.len() == 1 ==> final(meta).best_towers@[0]@ == placed_towers@),
    decreases towers_left,
{
    proof {
        lemma_occupy(orig, placed_towers@, meta.goals@);
        lemma_cells(map);
    }
    let ghost here = cells(map);
    let ghost st0 = meta.state();
    let ghost goals0 = meta.goals@;
    let ghost m0 = meta.max_towers;
    let levels = meta.processed_coords.len();
    assert(towers_left < levels);
    if meta.combinations < u64::MAX {
        meta.combinations = meta.combinations + 1;
    }
    let ghost st1 = meta.state();
    assert(st1 == (bump(st0.0), st0.1, st0.2, st0.3));
    let result = astar(start, map, &meta.goals);
    match result {
        None => {
            if towers_left > 0 && placed_towers.len() > 0 {
                let last = placed_towers[placed_towers.len() - 1];
                let level = towers_left as usize;
                meta.processed_coords[level].push(last);
                assert(meta.state().3 =~= st1.3.update(towers_left as int, st1.3[towers_left as int].push(placed_towers@.last())));
            }
            assert(meta.state() =~= search(orig, *start, goals0, m0, st0, placed_towers@, towers_left));
            return;
        },
        Some((dist, coords_found)) => {
            let ghost before_best = meta.best_dist;
            let better = match meta.best_dist {
                None => true,
                Some(b) => dist > b,
            };
            if better {
                meta.best_dist = Some(dist);
                let mut fresh: Vec<Vec<Coords>> = Vec::new();
                fresh.push(copy_placement(placed_towers));
                meta.best_towers = fresh;
            } else if meta.best_dist == Some(dist) {
                meta.best_towers.push(copy_placement(placed_towers));
            }
            let ghost st2 = meta.state();
            assert(st2 =~= record(st1, placed_towers@, dist));
            assert(meta.valid(orig, *start));
            if towers_left == 0 {
                return;
            }
            let ghost path = coords_found@;
            assert(path == astar_route(layout(here), *start, goals0));
            let mut i: usize = 0;
            while i < coords_found.len()
                invariant
                    well_formed(orig),
                    in_grid(orig, *start),
                    here == occupy(orig, placed_towers@),
                    cells(map) == here,
                    well_formed(here),
                    here.len() == orig.len(),
                    forall|y: int| 0 <= y < orig.len() ==> (#[trigger] here[y]).len() == orig[y].len(),
                    map@.len() == here.len(),
                    forall|y: int| #![trigger cells(map)[y]] #![trigger map@[y]]
                        0 <= y < map@.len() ==> cells(map)[y] == map@[y]@,
                    legal(orig, placed_towers@),
                    placed_towers@.len() + towers_left == m0,
                    1 <= towers_left,
                    path == coords_found@,
                    crate::astar::exit_walk(here, *start, path),
                    meta.valid(orig, *start),
                    meta.max_towers == m0,
                    meta.goals@ == goals0,
                    meta.combinations >= 1,
                    search_loop(orig, *start, goals0, m0, meta.state(), placed_towers@, towers_left, path, i as int)
                        == search_loop(orig, *start, goals0, m0, st2, placed_towers@, towers_left, path, 0),
                    meta.best_dist matches Some(d1) && d1 >= dist,
                    levels == m0 + 1,
                    towers_left < levels,
                    before_best matches Some(b) ==> (meta.best_dist matches Some(d1) && d1 >= b),
                decreases coords_found@.len() - i,
            {
                let c = coords_found[i];
                let ghost sti = meta.state();
                proof {
                    if i > 0 {
                        let j = i - 1;
                        assert(crate::astar::step(here, path[j], path[j + 1]));
                    }
                }
                assert(in_grid(here, c));
                let done = already_processed(&meta.processed_coords, towers_left, meta.max_towers, &c);
                proof {
                    if done {
                        let l = choose|l: int| towers_left <= l <= m0 && (#[trigger] meta.processed_coords@[l])@.contains(c);
                        assert(sti.3[l] == meta.processed_coords@[l]@);
                        assert(seen(sti.3, towers_left as int, m0 as int, c));
                    } else {
                        assert forall|l: int| towers_left <= l <= m0 implies !(#[trigger] sti.3[l]).contains(c) by {
                            assert(sti.3[l] == meta.processed_coords@[l]@);
                        }
                    }
                }
                if !done && map[c.y][c.x].allow_building() {
                    let prior = map[c.y][c.x].ttype;
                    proof {
                        assert(!placed_towers@.contains(c)) by {
                            if placed_towers@.contains(c) {
                                assert(here[c.y as int][c.x as int].ttype == TileType::Occupied);
                            }
                        }
                    }
                    map[c.y][c.x].ttype = TileType::Occupied;
                    let mut new_placed = copy_placement(placed_towers);
                    new_placed.push(c);
                    proof {
                        lemma_cells(map);
                        assert(new_placed@ == placed_towers@.push(c));
                        assert forall|q: Coords| #[trigger] new_placed@.contains(q) <==> placed_towers@.contains(q) || q == c by {
                            if new_placed@.contains(q) {
                                let k = choose|k: int| 0 <= k < new_placed@.len() && new_placed@[k] == q;
                                if k < placed_towers@.len() {
                                    assert(placed_towers@[k] == q);
                                }
                            }
                            if placed_towers@.contains(q) {
                                let k = choose|k: int| 0 <= k < placed_towers@.len() && placed_towers@[k] == q;
                                assert(new_placed@[k] == q);
                            }
                            if q == c {
                                assert(new_placed@[new_placed@.len() - 1] == q);
                            }
                        }
                        assert(cells(map) =~~= occupy(orig, new_placed@));
                        assert(legal(orig, new_placed@));
                    }
                    cutoff_recursive(start, map, meta, &new_placed, towers_left - 1, Ghost(orig));
                    proof { lemma_cells(map); }
                    map[c.y][c.x].ttype = prior;
                    proof {
                        lemma_cells(map);
                        assert(cells(map) =~~= here);
                    }
                    let level = towers_left as usize;
                    let ghost st_rec = meta.state();
                    meta.processed_coords[level].push(c);
                    if level > 1 {
                        meta.processed_coords[level - 1].clear();
                    }
                    proof {
                        let after_mark = st_rec.3.update(towers_left as int, st_rec.3[towers_left as int].push(c));
                        let after_clear = if towers_left > 1 { after_mark.update(towers_left - 1, seq![]) } else { after_mark };
                        assert(meta.state().3 =~= after_clear);
                        assert(meta.state() == (st_rec.0, st_rec.1, st_rec.2, after_clear));
                    }
                }
                i += 1;
            }
        },
    }
}

/// Finds every placement of at most `max_towers` towers, tried as the search
/// prunes them, that makes the shortest walk from `start_node` to an exit as
/// long as any placement it tried; the grid is left as it was given.
pub fn cutoff_builder(start_node: &Coords, map: &mut Vec<Vec<Node>>, max_towers: u64) -> (r: BuilderResult)
    requires
        well_formed(cells(old(map))),
        in_grid(cells(old(map)), *start_node),
        max_towers < usize::MAX,
    ensures
        cells(final(map)) == cells(old(map)),
        r.best_dist is None <==> no_exit_walk(cells(old(map)), *start_node),
        r.best_dist is None <==> r.best_towers@.len() == 0,
        forall|i: int|
            0 <= i < r.best_towers@.len() ==> legal(cells(old(map)), (#[trigger] r.best_towers@[i])@)
                && r.best_towers@[i]@.len() <= max_towers
                && shortest(occupy(cells(old(map)), r.best_towers@[i]@), *start_node, r.best_dist->0 as nat),
        forall|d: nat| shortest(cells(old(map)), *start_node, d) ==> (r.best_dist matches Some(b) && b >= d),
        max_towers == 0 && r.best_dist is Some ==> r.best_towers@.len() == 1 && r.best_towers@[0]@.len() == 0
            && shortest(cells(old(map)), *start_node, r.best_dist->0 as nat),
        r.combinations >= 1,
        r.best_towers@.map_values(|v: Vec<Coords>| v@) == search_outcome(cells(old(map)), *start_node, max_towers).1,
        r.best_dist == search_outcome(cells(old(map)), *start_node, max_towers).2,
        r.combinations == search_outcome(cells(old(map)), *start_node, max_towers).0,
{
    let ghost orig = cells(map);
    let goals = crate::grid::find_nodes_of_type(map, TileType::Exit);
    let mut processed_coords: Vec<Vec<Coords>> = Vec::new();
    let mut i: u64 = 0;
    while i <= max_towers
        invariant
            max_towers < usize::MAX,
            0 <= i <= max_towers + 1,
            processed_coords@.len() == i,
            forall|l: int| 0 <= l < i ==> (#[trigger] processed_coords@[l])@ == Seq::<Coords>::empty(),
        decreases max_towers + 1 - i,
    {
        processed_coords.push(Vec::new());
        i += 1;
    }
    let mut meta = CutoffMeta {
        max_towers,
        combinations: 0,
        best_towers: Vec::new(),
        best_dist: None,
        processed_coords,
        goals,
    };
    proof {
        assert(meta.state().3 =~= Seq::new((max_towers + 1) as nat, |l: int| Seq::<Coords>::empty()));
        assert(meta.state().1 =~= Seq::<Seq<Coords>>::empty());
    }
    let now = clock_now();
    let placed: Vec<Coords> = Vec::new();
    proof {
        assert(occupy(orig, placed@) =~~= orig);
    }
    cutoff_recursive(start_node, map, &mut meta, &placed, max_towers, Ghost(orig));
    proof {
        if max_towers == 0 && meta.best_dist is Some {
            assert(meta.best_towers@[0]@ =~= placed@);
        }
    }
    let took = clock_elapsed(&now);
    BuilderResult {
        duration: took,
        best_towers: meta.best_towers,
        best_dist: meta.best_dist,
        combinations: meta.combinations,
    }
}

/// Re-scoring a recorded placement gives the recorded distance: when the
/// search records `recorded` for placement `p` and any other exact measure
/// (such as the breadth-first search) reports `rescored` on the grid with
/// exactly the cells of `p` occupied, the two agree.
pub proof fn lemma_rescored_distance(g: Seq<Seq<Node>>, start: Coords, p: Seq<Coords>, recorded: nat, rescored: nat)
    requires
        shortest(occupy(g, p), start, recorded),
        shortest(occupy(g, p), start, rescored),
    ensures
        recorded == rescored,
{
    let o = occupy(g, p);
    let a = choose|w: Seq<Coords>| crate::astar::exit_walk(o, start, w) && w.len() == recorded + 1;
    let b = choose|w: Seq<Coords>| crate::astar::exit_walk(o, start, w) && w.len() == rescored + 1;
    assert(a.len() >= rescored + 1);
    assert(b.len() >= recorded + 1);
}

/// Searches are deterministic: two runs on grids with the same cells, from
/// the same start and with the same budget, record the same placements in the
/// same order, the same best length, and the same count of configurations.
pub proof fn lemma_search_deterministic(
    g1: Seq<Seq<Node>>,
    g2: Seq<Seq<Node>>,
    start: Coords,
    max_towers: u64,
    first: SearchState,
    second: SearchState,
)
    requires
        g1 == g2,
        first == search_outcome(g1, start, max_towers),
        second == search_outcome(g2, start, max_towers),
    ensures
        first.1 == second.1,
        first.2 == second.2,
        first.0 == second.0,
{
}

/// Best length `x` is at least best length `y` (no length is least).
pub open spec fn at_least(x: Option<u64>, y: Option<u64>) -> bool {
    y is None || (x is Some && x->0 >= y->0)
}

/// A search changes no pruning level above its budget left, keeps the number
/// of levels, and never lowers the best length.
proof fn lemma_search_frame(
    orig: Seq<Seq<Node>>,
    start: Coords,
    goals: Seq<Coords>,
    max: u64,
    st: SearchState,
    placed: Seq<Coords>,
    tl: u64,
)
    requires
        st.3.len() == max + 1,
        tl <= max,
    ensures
        search(orig, start, goals, max, st, placed, tl).3.len() == st.3.len(),
        forall|l: int| tl < l < st.3.len() ==> #[trigger] search(orig, start, goals, max, st, placed, tl).3[l] == st.3[l],
        at_least(search(orig, start, goals, max, st, placed, tl).2, st.2),
    decreases tl, 1int, 0int,
{
    let g = occupy(orig, placed);
    if !no_exit_walk(g, start) {
        let route = astar_route(layout(g), start, goals);
        let st1 = (bump(st.0), st.1, st.2, st.3);
        let st2 = record(st1, placed, (route.len() - 1) as u64);
        if tl != 0 {
            lemma_loop_frame(orig, start, goals, max, st2, placed, tl, route, 0);
        }
    }
}

proof fn lemma_loop_frame(
    orig: Seq<Seq<Node>>,
    start: Coords,
    goals: Seq<Coords>,
    max: u64,
    st: SearchState,
    placed: Seq<Coords>,
    tl: u64,
    route: Seq<Coords>,
    i: int,
)
    requires
        st.3.len() == max + 1,
        1 <= tl <= max,
    ensures
        search_loop(orig, start, goals, max, st, placed, tl, route, i).3.len() == st.3.len(),
        forall|l: int|
            tl < l < st.3.len() ==> #[trigger] search_loop(orig, start, goals, max, st, placed, tl, route, i).3[l] == st.3[l],
        at_least(search_loop(orig, start, goals, max, st, placed, tl, route, i).2, st.2),
    decreases tl, 0int, route.len() - i,
{
    if !(i < 0 || i >= route.len()) {
        let c = route[i];
        let g = occupy(orig, placed);
        if seen(st.3, tl as int, max as int, c) || !in_grid(g, c) || !buildable(cell(g, c).ttype) {
            lemma_loop_frame(orig, start, goals, max, st, placed, tl, route, i + 1);
        } else {
            let st2 = search(orig, start, goals, max, st, placed.push(c), (tl - 1) as u64);
            lemma_search_frame(orig, start, goals, max, st, placed.push(c), (tl - 1) as u64);
            let after_mark = st2.3.update(tl as int, st2.3[tl as int].push(c));
            let after_clear = if tl > 1 {
                after_mark.update(tl - 1, seq![])
            } else {
                after_mark
            };
            let st3 = (st2.0, st2.1, st2.2, after_clear);
            lemma_loop_frame(orig, start, goals, max, st3, placed, tl, route, i + 1);
        }
    }
}

/// Search `a` with budget `k` and search `b` with budget `k + 1` stand at the
/// same point: b's pruning levels are a's shifted up by one, and b's best
/// length is at least a's.
pub open spec fn in_step(a: SearchState, b: SearchState, k: u64) -> bool {
    &&& a.3.len() == k + 1
    &&& b.3.len() == k + 2
    &&& forall|l: int| 1 <= l <= k ==> #[trigger] a.3[l] == b.3[l + 1]
    &&& at_least(b.2, a.2)
}

proof fn lemma_search_step(
    orig: Seq<Seq<Node>>,
    start: Coords,
    goals: Seq<Coords>,
    k: u64,
    a: SearchState,
    b: SearchState,
    placed: Seq<Coords>,
    tl: u64,
)
    requires
        in_step(a, b, k),
        tl <= k,
        k < u64::MAX,
    ensures
        in_step(
            search(orig, start, goals, k, a, placed, tl),
            search(orig, start, goals, (k + 1) as u64, b, placed, (tl + 1) as u64),
            k,
        ),
    decreases tl, 1int, 0int,
{
    let g = occupy(orig, placed);
    let ra = search(orig, start, goals, k, a, placed, tl);
    let rb = search(orig, start, goals, (k + 1) as u64, b, placed, (tl + 1) as u64);
    if no_exit_walk(g, start) {
        assert forall|l: int| 1 <= l <= k implies #[trigger] ra.3[l] == rb.3[l + 1] by {
            assert(a.3[l] == b.3[l + 1]);
        }
    } else {
        let route = astar_route(layout(g), start, goals);
        let a2 = record((bump(a.0), a.1, a.2, a.3), placed, (route.len() - 1) as u64);
        let b2 = record((bump(b.0), b.1, b.2, b.3), placed, (route.len() - 1) as u64);
        assert(in_step(a2, b2, k));
        if tl == 0 {
            lemma_loop_frame(orig, start, goals, (k + 1) as u64, b2, placed, 1, route, 0);
            assert forall|l: int| 1 <= l <= k implies #[trigger] ra.3[l] == rb.3[l + 1] by {
                assert(a2.3[l] == b2.3[l + 1]);
            }
        } else {
            lemma_loop_step(orig, start, goals, k, a2, b2, placed, tl, route, 0);
        }
    }
}

proof fn lemma_loop_step(
    orig: Seq<Seq<Node>>,
    start: Coords,
    goals: Seq<Coords>,
    k: u64,
    a: SearchState,
    b: SearchState,
    placed: Seq<Coords>,
    tl: u64,
    route: Seq<Coords>,
    i: int,
)
    requires
        in_step(a, b, k),
        1 <= tl <= k,
        k < u64::MAX,
    ensures
        in_step(
            search_loop(orig, start, goals, k, a, placed, tl, route, i),
            search_loop(orig, start, goals, (k + 1) as u64, b, placed, (tl + 1) as u64, route, i),
            k,
        ),
    decreases tl, 0int, route.len() - i,
{
    if !(i < 0 || i >= route.len()) {
        let c = route[i];
        let g = occupy(orig, placed);
        assert(seen(a.3, tl as int, k as int, c) == seen(b.3, tl + 1, k + 1, c)) by {
            if seen(a.3, tl as int, k as int, c) {
                let l = choose|l: int| tl <= l <= k && (#[trigger] a.3[l]).contains(c);
                assert(b.3[l + 1] == a.3[l]);
            }
            if seen(b.3, tl + 1, k + 1, c) {
                let l = choose|l: int| tl + 1 <= l <= k + 1 && (#[trigger] b.3[l]).contains(c);
                assert(a.3[l - 1] == b.3[(l - 1) + 1]);
            }
        }
        if seen(a.3, tl as int, k as int, c) || !in_grid(g, c) || !buildable(cell(g, c).ttype) {
            lemma_loop_step(orig, start, goals, k, a, b, placed, tl, route, i + 1);
        } else {
            let a2 = search(orig, start, goals, k, a, placed.push(c), (tl - 1) as u64);
            let b2 = search(orig, start, goals, (k + 1) as u64, b, placed.push(c), tl);
            lemma_search_step(orig, start, goals, k, a, b, placed.push(c), (tl - 1) as u64);
            assert(((tl - 1) as u64 + 1) as u64 == tl);
            let a_mark = a2.3.update(tl as int, a2.3[tl as int].push(c));
            let a_clear = if tl > 1 {
                a_mark.update(tl - 1, seq![])
            } else {
                a_mark
            };
            let b_mark = b2.3.update(tl + 1, b2.3[tl + 1].push(c));
            let b_clear = b_mark.update(tl as int, seq![]);
            let a3 = (a2.0, a2.1, a2.2, a_clear);
            let b3 = (b2.0, b2.1, b2.2, b_clear);
            assert forall|l: int| 1 <= l <= k implies #[trigger] a3.3[l] == b3.3[l + 1] by {
                assert(a2.3[l] == b2.3[l + 1]);
            }
            assert(in_step(a3, b3, k));
            lemma_loop_step(orig, start, goals, k, a3, b3, placed, tl, route, i + 1);
        }
    }
}

/// One more tower never shortens the best walk: the search with budget
/// `k + 1` records a best length at least as long as the search with budget
/// `k` on the same grid and start.
pub proof fn lemma_budget_monotone(g: Seq<Seq<Node>>, start: Coords, k: u64)
    requires
        k < u64::MAX,
    ensures
        at_least(search_outcome(g, start, (k + 1) as u64).2, search_outcome(g, start, k).2),
{
    let goals = crate::grid::hits(g, TileType::Exit, g.len() as int);
    let a: SearchState = (0, seq![], None, Seq::new((k + 1) as nat, |l: int| Seq::<Coords>::empty()));
    let b: SearchState = (0, seq![], None, Seq::new((k + 2) as nat, |l: int| Seq::<Coords>::empty()));
    assert(in_step(a, b, k));
    lemma_search_step(g, start, goals, k, a, b, seq![], k);
}

} // verus!

use vstd::prelude::*;
use crate::models::{TileType, traversable, buildable};

verus! {

/// A cell position: column `x`, row `y`.
#[derive(Debug, Clone, Copy, PartialEq, Eq, Structural, Hash)]
pub struct Coords {
    pub x: usize,
    pub y: usize,
}

impl Coords {
    pub fn from_coords(x: usize, y: usize) -> (r: Self)
        ensures
            r.x == x,
            r.y == y,
    {
        Coords { x, y }
    }

    pub fn copy(&self) -> (r: Self)
        ensures
            r == *self,
    {
        Coords { x: self.x, y: self.y }
    }
}

/// One grid cell: its position, current kind, the traversable cells next to
/// it, and scratch fields of the breadth-first search.
pub struct Node {
    pub x: usize,
    pub y: usize,
    pub distance: u64,
    pub ttype: TileType,
    pub neighbors: Vec<Coords>,
    pub visited: bool,
}

impl Node {
    pub fn from_coords(x: usize, y: usize, ttype: TileType) -> (r: Self)
        ensures
            r.x == x,
            r.y == y,
            r.ttype == ttype,
            r.distance == 0,
            !r.visited,
            r.neighbors@.len() == 0,
    {
        Node { x, y, distance: 0, ttype, neighbors: Vec::with_capacity(4), visited: false }
    }

    /// The same cell with its neighbor list and scratch fields cleared.
    pub fn shallow_clone(&self) -> (r: Self)
        ensures
            r.x == self.x,
            r.y == self.y,
            r.ttype == self.ttype,
            r.distance == 0,
            !r.visited,
            r.neighbors@.len() == 0,
    {
        Node { x: self.x, y: self.y, distance: 0, ttype: self.ttype, neighbors: Vec::new(), visited: false }
    }

    pub fn add_neighbor(&mut self, coords: Coords)
        ensures
            final(self).neighbors@ == old(self).neighbors@.push(coords),
            final(self).x == old(self).x,
            final(self).y == old(self).y,
            final(self).ttype == old(self).ttype,
            final(self).distance == old(self).distance,
            final(self).visited == old(self).visited,
    {
        self.neighbors.push(coords);
    }

    pub fn coords(&self) -> (r: Coords)
        ensures
            r == self.pos(),
    {
        Coords { x: self.x, y: self.y }
    }

    pub open spec fn pos(&self) -> Coords {
        Coords { x: self.x, y: self.y }
    }
}

/// Kind queries on a cell.
pub trait TileTypeInformation {
    spec fn kind(&self) -> TileType;

    fn is_traversable(&self) -> (r: bool)
        ensures
            r == traversable(self.kind()),
    ;

    fn allow_building(&self) -> (r: bool)
        ensures
            r == buildable(self.kind()),
    ;
}

impl TileTypeInformation for Node {
    open spec fn kind(&self) -> TileType {
        self.ttype
    }

    fn is_traversable(&self) -> (r: bool) {
        match self.ttype {
            TileType::Free => true,
            TileType::Unbuildable => true,
            TileType::Void => false,
            TileType::Spawn => true,
            TileType::Exit => true,
            TileType::Occupied => false,
            TileType::Path => true,
        }
    }

    fn allow_building(&self) -> (r: bool) {
        match self.ttype {
            TileType::Free => true,
            TileType::Unbuildable => false,
            TileType::Void => false,
            TileType::Spawn => false,
            TileType::Exit => false,
            TileType::Occupied => false,
            TileType::Path => true,
        }
    }
}

/// Access to a row-major table by cell position.
pub trait CoordAccess<T> {
    spec fn holds(&self, coord: Coords) -> bool;

    spec fn at(&self, coord: Coords) -> T;

    fn get(&self, coord: &Coords) -> (r: &T)
        requires
            self.holds(*coord),
        ensures
            *r == self.at(*coord),
    ;

    fn get_mut(&mut self, coord: &Coords) -> (r: &mut T)
        requires
            old(self).holds(*coord),
        ensures
            *r == old(self).at(*coord),
            final(self).at(*coord) == *final(r),
            forall|c: Coords| #[trigger] final(self).holds(c) == old(self).holds(c),
            forall|c: Coords| c != *coord && old(self).holds(c) ==> #[trigger] final(self).at(c) == old(self).at(c),
    ;
}

impl<T> CoordAccess<T> for Vec<Vec<T>> {
    open spec fn holds(&self, coord: Coords) -> bool {
        coord.y < self@.len() && coord.x < self@[coord.y as int]@.len()
    }

    open spec fn at(&self, coord: Coords) -> T {
        self@[coord.y as int]@[coord.x as int]
    }

    fn get(&self, coord: &Coords) -> (r: &T) {
        &self[coord.y][coord.x]
    }

    fn get_mut(&mut self, coord: &Coords) -> (r: &mut T) {
        &mut self[coord.y][coord.x]
    }
}


/// Largest number of rows, and of columns, that a grid may have.
pub const MAX_SIDE: usize = 0x8000_0000;

/// The grid as nested sequences of cells.
pub open spec fn cells(map: &Vec<Vec<Node>>) -> Seq<Seq<Node>> {
    map@.map_values(|r: Vec<Node>| r@)
}

pub proof fn lemma_cells(map: &Vec<Vec<Node>>)
    ensures
        cells(map).len() == map@.len(),
        forall|y: int|
            #![trigger cells(map)[y]]
            #![trigger map@[y]]
            0 <= y < map@.len() ==> cells(map)[y] == map@[y]@,
{
}

/// The grid's tile kinds.
pub open spec fn kinds(g: Seq<Seq<Node>>) -> Seq<Seq<TileType>> {
    g.map_values(|r: Seq<Node>| r.map_values(|n: Node| n.ttype))
}

pub proof fn lemma_same_kinds(a: Seq<Seq<Node>>, b: Seq<Seq<Node>>)
    requires
        same_shape(a, b),
        forall|y: int, x: int| 0 <= y < a.len() && 0 <= x < a[y].len() ==> (#[trigger] a[y][x]).ttype == b[y][x].ttype,
    ensures
        kinds(a) == kinds(b),
{
    assert forall|y: int| 0 <= y < a.len() implies #[trigger] kinds(a)[y] == kinds(b)[y] by {
        assert(kinds(a)[y] =~= kinds(b)[y]);
    }
    assert(kinds(a) =~= kinds(b));
}

pub open spec fn in_grid(g: Seq<Seq<Node>>, c: Coords) -> bool {
    c.y < g.len() && c.x < g[c.y as int].len()
}

pub open spec fn cell(g: Seq<Seq<Node>>, c: Coords) -> Node {
    g[c.y as int][c.x as int]
}

/// All rows have the width of the first, and the grid fits the side bound.
pub open spec fn rectangular(g: Seq<Seq<Node>>) -> bool {
    &&& g.len() < MAX_SIDE
    &&& forall|y: int| 0 <= y < g.len() ==> (#[trigger] g[y]).len() == g[0].len() && g[y].len() < MAX_SIDE
}

/// Each cell records its own position.
pub open spec fn positioned(g: Seq<Seq<Node>>) -> bool {
    forall|y: int, x: int|
        0 <= y < g.len() && 0 <= x < g[y].len() ==> (#[trigger] g[y][x]).x == x && g[y][x].y == y
}

pub open spec fn manhattan(a: Coords, b: Coords) -> nat {
    (if a.x >= b.x { a.x - b.x } else { b.x - a.x }) as nat + (if a.y >= b.y { a.y - b.y } else {
        b.y - a.y
    }) as nat
}

/// Every recorded neighbor lies in the grid, one step away.
pub open spec fn links_adjacent(g: Seq<Seq<Node>>) -> bool {
    forall|y: int, x: int, i: int|
        0 <= y < g.len() && 0 <= x < g[y].len() && 0 <= i < g[y][x].neighbors@.len() ==> {
            let c = #[trigger] g[y][x].neighbors@[i];
            in_grid(g, c) && manhattan(Coords { x: x as usize, y: y as usize }, c) == 1
        }
}

pub open spec fn well_formed(g: Seq<Seq<Node>>) -> bool {
    rectangular(g) && positioned(g) && links_adjacent(g)
}

/// The cell at offset `(dx, dy)` from `(x, y)`, as a one-element sequence when
/// it lies in the grid and is traversable, else empty.
pub open spec fn candidate(k: Seq<Seq<TileType>>, x: int, y: int, dx: int, dy: int) -> Seq<Coords> {
    let nx = x + dx;
    let ny = y + dy;
    if 0 <= nx && 0 <= ny && ny < k.len() && nx < k[y].len() && traversable(k[ny][nx]) {
        seq![Coords { x: nx as usize, y: ny as usize }]
    } else {
        seq![]
    }
}

/// The neighbor list of cell `(x, y)`: down, left, right, up, each kept when it
/// lies in the grid and is traversable; none for a cell that is not traversable.
pub open spec fn neighbor_list(k: Seq<Seq<TileType>>, x: int, y: int) -> Seq<Coords> {
    if traversable(k[y][x]) {
        candidate(k, x, y, 0, 1) + candidate(k, x, y, -1, 0) + candidate(k, x, y, 1, 0)
            + candidate(k, x, y, 0, -1)
    } else {
        seq![]
    }
}

/// `n` is `o` with `extra` appended to its neighbor list.
pub open spec fn extended(o: Node, n: Node, extra: Seq<Coords>) -> bool {
    &&& n.x == o.x
    &&& n.y == o.y
    &&& n.ttype == o.ttype
    &&& n.distance == o.distance
    &&& n.visited == o.visited
    &&& n.neighbors@ == o.neighbors@ + extra
}

pub open spec fn same_shape(a: Seq<Seq<Node>>, b: Seq<Seq<Node>>) -> bool {
    a.len() == b.len() && forall|y: int| 0 <= y < a.len() ==> (#[trigger] a[y]).len() == b[y].len()
}

fn push_candidate(map: &Vec<Vec<Node>>, x: usize, y: usize, dx: i8, dy: i8, out: &mut Vec<Coords>)
    requires
        rectangular(cells(map)),
        y < map@.len(),
        x < map@[y as int]@.len(),
        -1 <= dx <= 1,
        -1 <= dy <= 1,
    ensures
        final(out)@ == old(out)@ + candidate(kinds(cells(map)), x as int, y as int, dx as int, dy as int),
{
    proof { lemma_cells(map); }
    if x == 0 && dx < 0 || y == 0 && dy < 0 {
        return;
    }
    let nx: usize = if dx < 0 { x - 1 } else if dx > 0 { x + 1 } else { x };
    let ny: usize = if dy < 0 { y - 1 } else if dy > 0 { y + 1 } else { y };
    let max_x = map[y].len();
    if nx >= max_x || ny >= map.len() {
        return;
    }
    assert(cells(map)[ny as int].len() == cells(map)[0].len());
    if !map[ny][nx].is_traversable() {
        return;
    }
    out.push(Coords { x: nx, y: ny });
}

fn neighbor_coords(map: &Vec<Vec<Node>>, x: usize, y: usize) -> (r: Vec<Coords>)
    requires
        rectangular(cells(map)),
        y < map@.len(),
        x < map@[y as int]@.len(),
    ensures
        r@ == neighbor_list(kinds(cells(map)), x as int, y as int),
{
    let mut out: Vec<Coords> = Vec::with_capacity(4);
    if !map[y][x].is_traversable() {
        return out;
    }
    push_candidate(map, x, y, 0, 1, &mut out);
    push_candidate(map, x, y, -1, 0, &mut out);
    push_candidate(map, x, y, 1, 0, &mut out);
    push_candidate(map, x, y, 0, -1, &mut out);
    out
}

/// Appends to each cell's neighbor list the traversable cells next to it, in
/// the order down, left, right, up; cells that are not traversable get none.
pub fn fill_neighbours(map: &mut Vec<Vec<Node>>)
    requires
        rectangular(cells(old(map))),
    ensures
        same_shape(cells(final(map)), cells(old(map))),
        forall|y: int, x: int|
            0 <= y < cells(old(map)).len() && 0 <= x < cells(old(map))[y].len() ==> extended(
                #[trigger] cells(old(map))[y][x],
                cells(final(map))[y][x],
                neighbor_list(kinds(cells(old(map))), x, y),
            ),
{
    let ghost g0 = cells(map);
    let ghost k0 = kinds(g0);
    let max_y = map.len();
    let mut y: usize = 0;
    while y < max_y
        invariant
            max_y == g0.len(),
            k0 == kinds(g0),
            0 <= y <= max_y,
            rectangular(g0),
            same_shape(cells(map), g0),
            forall|yy: int, xx: int|
                0 <= yy < max_y && 0 <= xx < g0[yy].len() ==> (#[trigger] cells(map)[yy][xx]).ttype == g0[yy][xx].ttype,
            forall|yy: int, xx: int|
                0 <= yy < y && 0 <= xx < g0[yy].len() ==> extended(
                    #[trigger] g0[yy][xx],
                    cells(map)[yy][xx],
                    neighbor_list(k0, xx, yy),
                ),
            forall|yy: int, xx: int|
                y <= yy < max_y && 0 <= xx < g0[yy].len() ==> #[trigger] cells(map)[yy][xx] == g0[yy][xx],
        decreases max_y - y,
    {
        proof { lemma_cells(map); }
        let max_x = map[y].len();
        assert(max_x == cells(map)[y as int].len());
        let mut x: usize = 0;
        while x < max_x
            invariant
                max_y == g0.len(),
                k0 == kinds(g0),
                0 <= y < max_y,
                0 <= x <= max_x,
                max_x == g0[y as int].len(),
                rectangular(g0),
                same_shape(cells(map), g0),
                forall|yy: int, xx: int|
                    0 <= yy < max_y && 0 <= xx < g0[yy].len() ==> (#[trigger] cells(map)[yy][xx]).ttype == g0[yy][xx].ttype,
                forall|yy: int, xx: int|
                    (0 <= yy < y || (yy == y && 0 <= xx < x)) && 0 <= xx < g0[yy].len() ==> extended(
                        #[trigger] g0[yy][xx],
                        cells(map)[yy][xx],
                        neighbor_list(k0, xx, yy),
                    ),
                forall|yy: int, xx: int|
                    (y < yy < max_y || (yy == y && x <= xx)) && 0 <= xx < g0[yy].len() ==> #[trigger] cells(map)[yy][xx] == g0[yy][xx],
            decreases max_x - x,
        {
            proof { lemma_cells(map); }
            assert(map@[y as int]@.len() == cells(map)[y as int].len());
            proof { lemma_same_kinds(cells(map), g0); }
            assert(rectangular(cells(map)));
            let ns = neighbor_coords(map, x, y);
            let mut i: usize = 0;
            while i < ns.len()
                invariant
                    max_y == g0.len(),
                    0 <= y < max_y,
                    0 <= x < max_x,
                    max_x == g0[y as int].len(),
                    ns@ == neighbor_list(k0, x as int, y as int),
                    0 <= i <= ns@.len(),
                    same_shape(cells(map), g0),
                    forall|yy: int, xx: int|
                        0 <= yy < max_y && 0 <= xx < g0[yy].len() ==> (#[trigger] cells(map)[yy][xx]).ttype == g0[yy][xx].ttype,
                    forall|yy: int, xx: int|
                        (0 <= yy < y || (yy == y && 0 <= xx < x)) && 0 <= xx < g0[yy].len() ==> extended(
                            #[trigger] g0[yy][xx],
                            cells(map)[yy][xx],
                            neighbor_list(k0, xx, yy),
                        ),
                    forall|yy: int, xx: int|
                        (y < yy < max_y || (yy == y && x < xx)) && 0 <= xx < g0[yy].len() ==> #[trigger] cells(map)[yy][xx] == g0[yy][xx],
                    extended(g0[y as int][x as int], cells(map)[y as int][x as int], ns@.subrange(0, i as int)),
                decreases ns@.len() - i,
            {
                proof { lemma_cells(map); }
                assert(map@[y as int]@.len() == cells(map)[y as int].len());
                map[y][x].add_neighbor(ns[i]);
                proof {
                    lemma_cells(map);
                    assert(ns@.subrange(0, i + 1) =~= ns@.subrange(0, i as int).push(ns@[i as int]));
                }
                i += 1;
            }
            assert(ns@.subrange(0, i as int) =~= ns@);
            x += 1;
        }
        y += 1;
    }
}

/// Clears the breadth-first scratch fields of every cell.
pub fn reset_nodes(map: &mut Vec<Vec<Node>>)
    ensures
        same_shape(cells(final(map)), cells(old(map))),
        forall|y: int, x: int|
            0 <= y < cells(old(map)).len() && 0 <= x < cells(old(map))[y].len() ==> {
                let o = #[trigger] cells(old(map))[y][x];
                let n = cells(final(map))[y][x];
                n.x == o.x && n.y == o.y && n.ttype == o.ttype && n.neighbors == o.neighbors
                    && n.distance == 0 && !n.visited
            },
{
    let ghost g0 = cells(map);
    let max_y = map.len();
    let mut y: usize = 0;
    while y < max_y
        invariant
            max_y == g0.len(),
            0 <= y <= max_y,
            same_shape(cells(map), g0),
            forall|yy: int, xx: int|
                0 <= yy < y && 0 <= xx < g0[yy].len() ==> {
                    let o = #[trigger] g0[yy][xx];
                    let n = cells(map)[yy][xx];
                    n.x == o.x && n.y == o.y && n.ttype == o.ttype && n.neighbors == o.neighbors
                        && n.distance == 0 && !n.visited
                },
            forall|yy: int, xx: int|
                y <= yy < max_y && 0 <= xx < g0[yy].len() ==> #[trigger] cells(map)[yy][xx] == g0[yy][xx],
        decreases max_y - y,
    {
        proof { lemma_cells(map); }
        let max_x = map[y].len();
        assert(max_x == cells(map)[y as int].len());
        let mut x: usize = 0;
        while x < max_x
            invariant
                max_y == g0.len(),
                0 <= y < max_y,
                0 <= x <= max_x,
                max_x == g0[y as int].len(),
                same_shape(cells(map), g0),
                forall|yy: int, xx: int|
                    (0 <= yy < y || (yy == y && 0 <= xx < x)) && 0 <= xx < g0[yy].len() ==> {
                        let o = #[trigger] g0[yy][xx];
                        let n = cells(map)[yy][xx];
                        n.x == o.x && n.y == o.y && n.ttype == o.ttype && n.neighbors == o.neighbors
                            && n.distance == 0 && !n.visited
                    },
                forall|yy: int, xx: int|
                    (y < yy < max_y || (yy == y && x <= xx)) && 0 <= xx < g0[yy].len() ==> #[trigger] cells(map)[yy][xx] == g0[yy][xx],
            decreases max_x - x,
        {
            proof { lemma_cells(map); }
            assert(map@[y as int]@.len() == cells(map)[y as int].len());
            map[y][x].distance = 0;
            map[y][x].visited = false;
            proof { lemma_cells(map); }
            x += 1;
        }
        y += 1;
    }
}

/// Whether `c` occurs in `v`.
pub fn contains_coord(v: &Vec<Coords>, c: &Coords) -> (r: bool)
    ensures
        r == v@.contains(*c),
{
    let mut i: usize = 0;
    while i < v.len()
        invariant
            0 <= i <= v@.len(),
            forall|k: int| 0 <= k < i ==> v@[k] != *c,
        decreases v@.len() - i,
    {
        if v[i] == *c {
            return true;
        }
        i += 1;
    }
    false
}

/// The first cell of kind `Spawn`, in row-major order.
pub fn find_start_node(map: &Vec<Vec<Node>>) -> (r: Option<&Node>)
    ensures
        r.is_none() <==> !exists|y: int, x: int|
            0 <= y < cells(map).len() && 0 <= x < cells(map)[y].len() && (#[trigger] cells(map)[y][x]).ttype
                == TileType::Spawn,
        r.is_some() ==> r.unwrap().ttype == TileType::Spawn && exists|y: int, x: int|
            0 <= y < cells(map).len() && 0 <= x < cells(map)[y].len() && #[trigger] cells(map)[y][x]
                == *r.unwrap(),
{
    proof { lemma_cells(map); }
    let mut y: usize = 0;
    while y < map.len()
        invariant
            0 <= y <= map@.len(),
            cells(map).len() == map@.len(),
            forall|yy: int| #![trigger cells(map)[yy]] #![trigger map@[yy]]
                0 <= yy < map@.len() ==> cells(map)[yy] == map@[yy]@,
            forall|yy: int, xx: int|
                0 <= yy < y && 0 <= xx < cells(map)[yy].len() ==> (#[trigger] cells(map)[yy][xx]).ttype
                    != TileType::Spawn,
        decreases map@.len() - y,
    {
        let mut x: usize = 0;
        while x < map[y].len()
            invariant
                0 <= y < map@.len(),
                0 <= x <= map@[y as int]@.len(),
                cells(map).len() == map@.len(),
                forall|yy: int| #![trigger cells(map)[yy]] #![trigger map@[yy]]
                    0 <= yy < map@.len() ==> cells(map)[yy] == map@[yy]@,
                forall|yy: int, xx: int|
                    (0 <= yy < y || (yy == y && 0 <= xx < x)) && 0 <= xx < cells(map)[yy].len()
                        ==> (#[trigger] cells(map)[yy][xx]).ttype != TileType::Spawn,
            decreases map@[y as int]@.len() - x,
        {
            if map[y][x].ttype == TileType::Spawn {
                assert(cells(map)[y as int][x as int] == map@[y as int]@[x as int]);
                return Some(&map[y][x]);
            }
            x += 1;
        }
        y += 1;
    }
    None
}

/// Positions of the cells of kind `t` among the first `x` cells of `row`, in order.
pub open spec fn hits_in_row(row: Seq<Node>, t: TileType, x: int) -> Seq<Coords>
    decreases x,
{
    if x <= 0 {
        seq![]
    } else if row[x - 1].ttype == t {
        hits_in_row(row, t, x - 1).push(row[x - 1].pos())
    } else {
        hits_in_row(row, t, x - 1)
    }
}

/// Positions of the cells of kind `t` in the first `y` rows of `g`, row-major.
pub open spec fn hits(g: Seq<Seq<Node>>, t: TileType, y: int) -> Seq<Coords>
    decreases y,
{
    if y <= 0 {
        seq![]
    } else {
        hits(g, t, y - 1) + hits_in_row(g[y - 1], t, g[y - 1].len() as int)
    }
}

/// The positions of all cells of kind `ttype`, in row-major order.
pub fn find_nodes_of_type(map: &Vec<Vec<Node>>, ttype: TileType) -> (r: Vec<Coords>)
    requires
        positioned(cells(map)),
    ensures
        r@ == hits(cells(map), ttype, cells(map).len() as int),
        forall|i: int| 0 <= i < r@.len() ==> in_grid(cells(map), #[trigger] r@[i]) && cell(cells(map), r@[i]).ttype == ttype,
        forall|y: int, x: int|
            0 <= y < cells(map).len() && 0 <= x < cells(map)[y].len() && (#[trigger] cells(map)[y][x]).ttype == ttype
                ==> r@.contains(Coords { x: x as usize, y: y as usize }),
{
    proof { lemma_cells(map); }
    let ghost g = cells(map);
    let mut coords: Vec<Coords> = Vec::new();
    let mut y: usize = 0;
    while y < map.len()
        invariant
            g == cells(map),
            positioned(g),
            0 <= y <= map@.len(),
            coords@ == hits(g, ttype, y as int),
            g.len() == map@.len(),
            forall|yy: int| #![trigger g[yy]] #![trigger map@[yy]]
                0 <= yy < map@.len() ==> g[yy] == map@[yy]@,
            forall|i: int| 0 <= i < coords@.len() ==> in_grid(g, #[trigger] coords@[i]) && cell(g, coords@[i]).ttype == ttype,
            forall|yy: int, xx: int|
                0 <= yy < y && 0 <= xx < g[yy].len() && (#[trigger] g[yy][xx]).ttype == ttype
                    ==> coords@.contains(Coords { x: xx as usize, y: yy as usize }),
        decreases map@.len() - y,
    {
        let mut x: usize = 0;
        assert(hits(g, ttype, y as int) + hits_in_row(g[y as int], ttype, 0) =~= hits(g, ttype, y as int));
        while x < map[y].len()
            invariant
                g == cells(map),
                positioned(g),
                0 <= y < map@.len(),
                0 <= x <= map@[y as int]@.len(),
                coords@ == hits(g, ttype, y as int) + hits_in_row(g[y as int], ttype, x as int),
                g.len() == map@.len(),
                forall|yy: int| #![trigger g[yy]] #![trigger map@[yy]]
                    0 <= yy < map@.len() ==> g[yy] == map@[yy]@,
                forall|i: int| 0 <= i < coords@.len() ==> in_grid(g, #[trigger] coords@[i]) && cell(g, coords@[i]).ttype == ttype,
                forall|yy: int, xx: int|
                    (0 <= yy < y || (yy == y && 0 <= xx < x)) && 0 <= xx < g[yy].len() && (#[trigger] g[yy][xx]).ttype == ttype
                        ==> coords@.contains(Coords { x: xx as usize, y: yy as usize }),
            decreases map@[y as int]@.len() - x,
        {
            if map[y][x].ttype == ttype {
                let c = map[y][x].coords();
                assert(g[y as int][x as int] == map@[y as int]@[x as int]);
                assert(c == Coords { x: x, y: y });
                let ghost before = coords@;
                coords.push(c);
                proof {
                    assert(g[y as int][x as int].pos() == c);
                    assert(coords@ =~= hits(g, ttype, y as int) + hits_in_row(g[y as int], ttype, x + 1));
                    assert(coords@[coords@.len() - 1] == c);
                    assert forall|q: Coords| before.contains(q) implies coords@.contains(q) by {
                        let i = choose|i: int| 0 <= i < before.len() && before[i] == q;
                        assert(coords@[i] == q);
                    }
                }
            }
            x += 1;
        }
        assert(coords@ =~= hits(g, ttype, y + 1));
        y += 1;
    }
    coords
}

/// Builds the grid of a rectangular table of kinds: each cell knows its
/// position, and its traversable neighbors as `fill_neighbours` lists them.
pub fn build_grid(table: &Vec<Vec<TileType>>) -> (r: Vec<Vec<Node>>)
    requires
        table@.len() < MAX_SIDE,
        forall|y: int| 0 <= y < table@.len() ==> (#[trigger] table@[y])@.len() == table@[0]@.len() && table@[y]@.len() < MAX_SIDE,
    ensures
        well_formed(cells(&r)),
        cells(&r).len() == table@.len(),
        forall|y: int| 0 <= y < table@.len() ==> (#[trigger] cells(&r)[y]).len() == table@[y]@.len(),
        forall|y: int, x: int|
            0 <= y < table@.len() && 0 <= x < table@[y]@.len() ==> {
                let n = #[trigger] cells(&r)[y][x];
                n.ttype == table@[y]@[x] && n.distance == 0 && !n.visited
                    && n.neighbors@ == neighbor_list(kinds(cells(&r)), x, y)
            },
{
    let mut map: Vec<Vec<Node>> = Vec::with_capacity(table.len());
    let mut y: usize = 0;
    while y < table.len()
        invariant
            0 <= y <= table@.len(),
            map@.len() == y,
            forall|yy: int| 0 <= yy < y ==> (#[trigger] map@[yy])@.len() == table@[yy]@.len(),
            forall|yy: int, xx: int|
                0 <= yy < y && 0 <= xx < table@[yy]@.len() ==> {
                    let n = #[trigger] map@[yy]@[xx];
                    n.x == xx && n.y == yy && n.ttype == table@[yy]@[xx] && n.distance == 0 && !n.visited
                        && n.neighbors@.len() == 0
                },
        decreases table@.len() - y,
    {
        let mut row: Vec<Node> = Vec::with_capacity(table[y].len());
        let mut x: usize = 0;
        while x < table[y].len()
            invariant
                0 <= y < table@.len(),
                0 <= x <= table@[y as int]@.len(),
                row@.len() == x,
                forall|xx: int|
                    0 <= xx < x ==> {
                        let n = #[trigger] row@[xx];
                        n.x == xx && n.y == y && n.ttype == table@[y as int]@[xx] && n.distance == 0
                            && !n.visited && n.neighbors@.len() == 0
                    },
            decreases table@[y as int]@.len() - x,
        {
            row.push(Node::from_coords(x, y, table[y][x]));
            x += 1;
        }
        map.push(row);
        y += 1;
    }
    proof {
        lemma_cells(&map);
        assert(rectangular(cells(&map))) by {
            assert forall|y: int| 0 <= y < cells(&map).len() implies (#[trigger] cells(&map)[y]).len() == cells(&map)[0].len()
                && cells(&map)[y].len() < MAX_SIDE by {
                assert(table@[y]@.len() == table@[0]@.len());
            }
        }
    }
    let ghost g0 = cells(&map);
    fill_neighbours(&mut map);
    proof {
        lemma_cells(&map);
        lemma_filled(g0, cells(&map));
        assert forall|y: int, x: int|
            0 <= y < table@.len() && 0 <= x < table@[y]@.len() implies #[trigger] cells(&map)[y][x].ttype == table@[y]@[x] by {
            assert(extended(g0[y][x], cells(&map)[y][x], neighbor_list(kinds(g0), x, y)));
        }
    }
    map
}

proof fn lemma_neighbor_list_adjacent(g: Seq<Seq<Node>>, x: int, y: int)
    requires
        rectangular(g),
        0 <= y < g.len(),
        0 <= x < g[y].len(),
    ensures
        forall|i: int| 0 <= i < neighbor_list(kinds(g), x, y).len() ==> {
            let c = #[trigger] neighbor_list(kinds(g), x, y)[i];
            in_grid(g, c) && manhattan(Coords { x: x as usize, y: y as usize }, c) == 1
        },
{
    lemma_cells_kinds(g);
    let k = kinds(g);
    assert(g[y].len() == g[0].len());
    assert forall|dx: int, dy: int, i: int|
        (dx == 0 && (dy == 1 || dy == -1) || dy == 0 && (dx == 1 || dx == -1)) && 0 <= i < candidate(k, x, y, dx, dy).len()
        implies {
            let c = #[trigger] candidate(k, x, y, dx, dy)[i];
            in_grid(g, c) && manhattan(Coords { x: x as usize, y: y as usize }, c) == 1
        } by {
        let ny = y + dy;
        if 0 <= ny < g.len() {
            assert(g[ny].len() == g[0].len());
        }
    }
}

proof fn lemma_filled(g0: Seq<Seq<Node>>, g: Seq<Seq<Node>>)
    requires
        rectangular(g0),
        positioned(g0),
        same_shape(g, g0),
        forall|y: int, x: int| 0 <= y < g0.len() && 0 <= x < g0[y].len() ==> (#[trigger] g0[y][x]).neighbors@.len() == 0,
        forall|y: int, x: int|
            0 <= y < g0.len() && 0 <= x < g0[y].len() ==> extended(
                #[trigger] g0[y][x],
                g[y][x],
                neighbor_list(kinds(g0), x, y),
            ),
    ensures
        kinds(g) == kinds(g0),
        well_formed(g),
        forall|y: int, x: int|
            0 <= y < g.len() && 0 <= x < g[y].len() ==> (#[trigger] g[y][x]).neighbors@ == neighbor_list(kinds(g), x, y),
{
    assert forall|y: int, x: int| 0 <= y < g.len() && 0 <= x < g[y].len() implies (#[trigger] g[y][x]).ttype == g0[y][x].ttype by {
        assert(extended(g0[y][x], g[y][x], neighbor_list(kinds(g0), x, y)));
    }
    lemma_same_kinds(g, g0);
    assert forall|y: int, x: int| 0 <= y < g.len() && 0 <= x < g[y].len() implies (#[trigger] g[y][x]).neighbors@ == neighbor_list(kinds(g), x, y) by {
        assert(extended(g0[y][x], g[y][x], neighbor_list(kinds(g0), x, y)));
        assert(g[y][x].neighbors@ =~= neighbor_list(kinds(g0), x, y));
    }
    assert(rectangular(g)) by {
        assert forall|y: int| 0 <= y < g.len() implies (#[trigger] g[y]).len() == g[0].len() && g[y].len() < MAX_SIDE by {
            assert(g0[y].len() == g0[0].len());
        }
    }
    assert forall|y: int, x: int| 0 <= y < g.len() && 0 <= x < g[y].len() implies (#[trigger] g[y][x]).x == x && g[y][x].y == y by {
        assert(extended(g0[y][x], g[y][x], neighbor_list(kinds(g0), x, y)));
    }
    assert forall|y: int, x: int, i: int|
        0 <= y < g.len() && 0 <= x < g[y].len() && 0 <= i < g[y][x].neighbors@.len() implies {
            let c = #[trigger] g[y][x].neighbors@[i];
            in_grid(g, c) && manhattan(Coords { x: x as usize, y: y as usize }, c) == 1
        } by {
        lemma_neighbor_list_adjacent(g, x, y);
        assert(g[y][x].neighbors@[i] == neighbor_list(kinds(g), x, y)[i]);
    }
}

proof fn lemma_cells_kinds(g: Seq<Seq<Node>>)
    ensures
        kinds(g).len() == g.len(),
        forall|y: int| 0 <= y < g.len() ==> (#[trigger] kinds(g)[y]).len() == g[y].len(),
        forall|y: int, x: int| 0 <= y < g.len() && 0 <= x < g[y].len() ==> (#[trigger] kinds(g)[y][x]) == g[y][x].ttype,
{
}

} // verus!

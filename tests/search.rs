use maze_builder::astar::astar;
use maze_builder::bfs::{collect_dfs_path, dfs};
use maze_builder::cutoff::cutoff_builder;
use maze_builder::grid::{build_grid, fill_neighbours, find_nodes_of_type, find_start_node, reset_nodes};
use maze_builder::{CoordAccess, Coords, Node, TileType, TileTypeInformation};

use TileType::{Exit, Free, Occupied, Path, Spawn, Unbuildable, Void};

fn grid(rows: Vec<Vec<TileType>>) -> Vec<Vec<Node>> {
    build_grid(&rows)
}

fn kinds_of(map: &Vec<Vec<Node>>) -> Vec<Vec<TileType>> {
    map.iter().map(|r| r.iter().map(|n| n.ttype).collect()).collect()
}

fn neighbors_of(map: &Vec<Vec<Node>>) -> Vec<Vec<Vec<Coords>>> {
    map.iter().map(|r| r.iter().map(|n| n.neighbors.clone()).collect()).collect()
}

fn open_three_by_three() -> Vec<Vec<TileType>> {
    vec![vec![Spawn, Free, Free], vec![Free, Free, Free], vec![Free, Free, Exit]]
}

#[test]
fn corridor_keeps_only_the_empty_placement() {
    let mut map = grid(vec![vec![Spawn, Free, Free, Exit]]);
    let r = cutoff_builder(&Coords::from_coords(0, 0), &mut map, 1);
    assert_eq!(r.best_dist, Some(3));
    assert_eq!(r.best_towers, vec![Vec::<Coords>::new()]);
}

#[test]
fn open_square_cannot_be_lengthened_by_one_tower() {
    let mut map = grid(open_three_by_three());
    let r = cutoff_builder(&Coords::from_coords(0, 0), &mut map, 1);
    assert_eq!(r.best_dist, Some(4));
    assert!(r.best_towers.contains(&Vec::new()));
    for p in &r.best_towers {
        assert!(p.len() <= 1);
        for c in p {
            assert_eq!(map.get(c).ttype, Free);
        }
    }
}

#[test]
fn zero_budget_returns_the_empty_placement() {
    let mut map = grid(open_three_by_three());
    let r = cutoff_builder(&Coords::from_coords(0, 0), &mut map, 0);
    assert_eq!(r.best_dist, Some(4));
    assert_eq!(r.best_towers, vec![Vec::<Coords>::new()]);
    assert_eq!(r.combinations, 1);
}

#[test]
fn zero_budget_on_a_blocked_grid_finds_nothing() {
    let mut map = grid(vec![vec![Spawn, Void, Exit]]);
    let r = cutoff_builder(&Coords::from_coords(0, 0), &mut map, 0);
    assert_eq!(r.best_dist, None);
    assert!(r.best_towers.is_empty());
}

#[test]
fn search_restores_the_grid() {
    let rows = vec![
        vec![Spawn, Free, Free, Free],
        vec![Free, Unbuildable, Path, Free],
        vec![Free, Free, Free, Exit],
    ];
    let mut map = grid(rows.clone());
    let before_neighbors = neighbors_of(&map);
    let _ = cutoff_builder(&Coords::from_coords(0, 0), &mut map, 2);
    assert_eq!(kinds_of(&map), rows);
    assert_eq!(neighbors_of(&map), before_neighbors);
}

#[test]
fn towers_lengthen_a_wide_corridor() {
    // Two rows: one tower in the right place forces a detour.
    let rows = vec![vec![Spawn, Free, Free, Free, Exit], vec![Void, Free, Free, Free, Void]];
    let mut map = grid(rows);
    let r = cutoff_builder(&Coords::from_coords(0, 0), &mut map, 1);
    assert_eq!(r.best_dist, Some(6));
    assert_eq!(r.best_towers, vec![vec![Coords::from_coords(2, 0)]]);
}

#[test]
fn more_towers_never_shorten_the_best_walk() {
    let rows = vec![
        vec![Spawn, Free, Free, Free],
        vec![Free, Free, Free, Free],
        vec![Free, Free, Free, Free],
        vec![Free, Free, Free, Exit],
    ];
    let mut last = 0;
    for k in 0..3u64 {
        let mut map = grid(rows.clone());
        let r = cutoff_builder(&Coords::from_coords(0, 0), &mut map, k);
        let d = r.best_dist.unwrap();
        assert!(d >= last);
        last = d;
    }
}

#[test]
fn repeated_searches_agree() {
    let rows = vec![
        vec![Spawn, Free, Free, Free],
        vec![Free, Void, Free, Free],
        vec![Free, Free, Free, Exit],
    ];
    let mut a = grid(rows.clone());
    let mut b = grid(rows);
    let ra = cutoff_builder(&Coords::from_coords(0, 0), &mut a, 2);
    let rb = cutoff_builder(&Coords::from_coords(0, 0), &mut b, 2);
    assert_eq!(ra.best_dist, rb.best_dist);
    let mut pa = ra.best_towers.clone();
    let mut pb = rb.best_towers.clone();
    pa.sort_by_key(|p| p.iter().map(|c| (c.x, c.y)).collect::<Vec<_>>());
    pb.sort_by_key(|p| p.iter().map(|c| (c.x, c.y)).collect::<Vec<_>>());
    assert_eq!(pa, pb);
}

#[test]
fn recorded_placements_reach_the_recorded_distance() {
    let rows = vec![
        vec![Spawn, Free, Free, Free],
        vec![Free, Free, Void, Free],
        vec![Free, Free, Free, Exit],
    ];
    let mut map = grid(rows);
    let start = Coords::from_coords(0, 0);
    let r = cutoff_builder(&start, &mut map, 2);
    let best = r.best_dist.unwrap();
    let goals = find_nodes_of_type(&map, Exit);
    for p in &r.best_towers {
        let mut m = grid(kinds_of(&map));
        for c in p {
            m[c.y][c.x].ttype = Occupied;
        }
        let (d, _) = dfs(&start, &mut m, 12).unwrap();
        assert_eq!(d, best);
        let (d2, _) = astar(&start, &m, &goals).unwrap();
        assert_eq!(d2, best);
    }
}

#[test]
fn bfs_collects_every_cell_on_tied_shortest_walks() {
    let mut map = grid(vec![vec![Spawn, Free, Free], vec![Free, Void, Free], vec![Free, Free, Exit]]);
    let (d, path) = dfs(&Coords::from_coords(0, 0), &mut map, 9).unwrap();
    assert_eq!(d, 4);
    let mut cells: Vec<(usize, usize)> = path.iter().map(|c| (c.x, c.y)).collect();
    cells.sort();
    assert_eq!(cells, vec![(0, 1), (0, 2), (1, 0), (1, 2), (2, 0), (2, 1)]);
    assert_eq!(kinds_of(&map)[1][1], Void);
}

#[test]
fn bfs_reports_no_route() {
    let mut map = grid(vec![vec![Spawn, Occupied, Exit]]);
    assert!(dfs(&Coords::from_coords(0, 0), &mut map, 3).is_none());
}

#[test]
fn bfs_on_a_start_that_is_an_exit() {
    let mut map = grid(vec![vec![Exit, Free]]);
    let (d, path) = dfs(&Coords::from_coords(0, 0), &mut map, 2).unwrap();
    assert_eq!(d, 0);
    assert!(path.is_empty());
}

#[test]
fn bfs_resets_scratch_before_searching() {
    let mut map = grid(vec![vec![Spawn, Free, Exit]]);
    map[0][1].visited = true;
    map[0][1].distance = 40;
    let (d, path) = dfs(&Coords::from_coords(0, 0), &mut map, 3).unwrap();
    assert_eq!(d, 2);
    assert_eq!(path, vec![Coords::from_coords(1, 0)]);
}

#[test]
fn collect_walks_back_by_distance() {
    let mut map = grid(vec![vec![Spawn, Free, Free, Exit]]);
    let _ = dfs(&Coords::from_coords(0, 0), &mut map, 4);
    let mut path = vec![Coords::from_coords(7, 7)];
    collect_dfs_path(&Coords::from_coords(3, 0), &map, &mut path);
    assert_eq!(path, vec![Coords::from_coords(7, 7), Coords::from_coords(2, 0), Coords::from_coords(1, 0)]);
}

#[test]
fn astar_measures_a_detour() {
    let map = grid(vec![vec![Spawn, Void, Exit], vec![Free, Free, Free]]);
    let goals = find_nodes_of_type(&map, Exit);
    let (d, path) = astar(&Coords::from_coords(0, 0), &map, &goals).unwrap();
    assert_eq!(d, 4);
    assert_eq!(path.len(), 5);
    assert_eq!(path[0], Coords::from_coords(0, 0));
    assert_eq!(path[4], Coords::from_coords(2, 0));
}

#[test]
fn astar_reports_no_route() {
    let map = grid(vec![vec![Spawn, Void, Exit]]);
    let goals = find_nodes_of_type(&map, Exit);
    assert!(astar(&Coords::from_coords(0, 0), &map, &goals).is_none());
}

#[test]
fn astar_treats_occupied_as_a_wall() {
    let mut map = grid(vec![vec![Spawn, Free, Exit], vec![Free, Free, Free]]);
    map[0][1].ttype = Occupied;
    let goals = find_nodes_of_type(&map, Exit);
    let (d, _) = astar(&Coords::from_coords(0, 0), &map, &goals).unwrap();
    assert_eq!(d, 4);
}

#[test]
fn astar_picks_the_nearest_exit() {
    let map = grid(vec![vec![Exit, Free, Spawn, Free, Free, Exit]]);
    let goals = find_nodes_of_type(&map, Exit);
    let (d, _) = astar(&Coords::from_coords(2, 0), &map, &goals).unwrap();
    assert_eq!(d, 2);
}

#[test]
fn neighbors_follow_the_fixed_order_and_skip_walls() {
    let map = grid(vec![vec![Free, Free, Free], vec![Void, Free, Free], vec![Free, Free, Free]]);
    let c = |x, y| Coords::from_coords(x, y);
    assert_eq!(map[1][1].neighbors, vec![c(1, 2), c(2, 1), c(1, 0)]);
    assert_eq!(map[0][0].neighbors, vec![c(1, 0)]);
    assert_eq!(map[2][2].neighbors, vec![c(1, 2), c(2, 1)]);
    assert!(map[1][0].neighbors.is_empty());
}

#[test]
fn fill_appends_to_existing_lists() {
    let mut map = vec![vec![Node::from_coords(0, 0, Free), Node::from_coords(1, 0, Free)]];
    map[0][0].add_neighbor(Coords::from_coords(9, 9));
    fill_neighbours(&mut map);
    assert_eq!(map[0][0].neighbors, vec![Coords::from_coords(9, 9), Coords::from_coords(1, 0)]);
    assert_eq!(map[0][1].neighbors, vec![Coords::from_coords(0, 0)]);
}

#[test]
fn reset_clears_scratch_fields() {
    let mut map = grid(vec![vec![Spawn, Exit]]);
    map[0][1].visited = true;
    map[0][1].distance = 7;
    reset_nodes(&mut map);
    assert!(!map[0][1].visited);
    assert_eq!(map[0][1].distance, 0);
    assert_eq!(map[0][1].ttype, Exit);
}

#[test]
fn start_and_exits_are_found() {
    let map = grid(vec![vec![Free, Exit], vec![Spawn, Exit]]);
    let s = find_start_node(&map).unwrap();
    assert_eq!(s.coords(), Coords::from_coords(0, 1));
    assert_eq!(
        find_nodes_of_type(&map, Exit),
        vec![Coords::from_coords(1, 0), Coords::from_coords(1, 1)]
    );
    let none = grid(vec![vec![Free, Exit]]);
    assert!(find_start_node(&none).is_none());
}

#[test]
fn kind_rules() {
    let all = [Free, Unbuildable, Void, Spawn, Exit, Occupied, Path];
    let trav = [true, true, false, true, true, false, true];
    let build = [true, false, false, false, false, false, true];
    for i in 0..7 {
        let n = Node::from_coords(0, 0, all[i]);
        assert_eq!(n.is_traversable(), trav[i]);
        assert_eq!(n.allow_building(), build[i]);
        assert_eq!(TileType::from_code(i as u8), Some(all[i]));
        assert_eq!(all[i].code(), i as u8);
    }
    assert_eq!(TileType::from_code(7), None);
}

#[test]
fn coords_and_nodes() {
    let c = Coords::from_coords(3, 4);
    assert_eq!(c.copy(), c);
    assert_eq!((c.x, c.y), (3, 4));
    let mut n = Node::from_coords(3, 4, Path);
    n.add_neighbor(c.copy());
    n.visited = true;
    let s = n.shallow_clone();
    assert_eq!(s.coords(), c);
    assert_eq!(s.ttype, Path);
    assert!(s.neighbors.is_empty() && !s.visited);
    let mut table = vec![vec![1u8, 2], vec![3, 4]];
    assert_eq!(*table.get(&Coords::from_coords(1, 0)), 2);
    *table.get_mut(&Coords::from_coords(0, 1)) = 9;
    assert_eq!(table, vec![vec![1u8, 2], vec![9, 4]]);
}

#[test]
fn placements_use_distinct_buildable_cells() {
    let rows = vec![
        vec![Spawn, Free, Unbuildable, Free, Free],
        vec![Path, Free, Free, Void, Free],
        vec![Free, Unbuildable, Free, Free, Exit],
    ];
    let mut map = grid(rows.clone());
    let r = cutoff_builder(&Coords::from_coords(0, 0), &mut map, 3);
    assert!(!r.best_towers.is_empty());
    for p in &r.best_towers {
        assert!(p.len() <= 3);
        for (i, c) in p.iter().enumerate() {
            let kind = rows[c.y][c.x];
            assert!(kind == Free || kind == Path);
            assert!(!p[i + 1..].contains(c));
        }
    }
}

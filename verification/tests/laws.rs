use grid_paths::graph::{search_simple_graph, Edge, JunctionGraph};
use grid_paths::grid::{Coordinate, Direction, Grid, SearchError};
use grid_paths::heap::MinHeap;
use grid_paths::pathfinder::{dijkstra, shortest_constrained_path};
use grid_paths::period::{detect_period_and_project, Simulation};
use grid_paths::state_space::{cost_of, RunLimits, SearchState};
use grid_paths::trails::{get_adjacent, get_junction_coords, get_simple_graph, longest_simple_path, walk_corridor};

fn grid_of(rows: &[&str]) -> Grid {
    Grid::from_rows(rows.iter().map(|row| row.as_bytes().to_vec()).collect()).unwrap()
}

fn at(x: usize, y: usize) -> Coordinate {
    Coordinate { x, y }
}

/// The cost of a cheapest walk without any limit, by relaxing every cell
/// until nothing changes.
fn cheapest_walk(rows: &[&str], start: Coordinate, end: Coordinate) -> Option<u64> {
    let h = rows.len();
    let w = rows[0].len();
    let cell = |x: usize, y: usize| rows[y].as_bytes()[x];
    if cell(start.x, start.y) == b'#' {
        return None;
    }
    let mut best: Vec<Vec<Option<u64>>> = vec![vec![None; w]; h];
    best[start.y][start.x] = Some(0);
    let mut changed = true;
    while changed {
        changed = false;
        for y in 0..h {
            for x in 0..w {
                let Some(here) = best[y][x] else { continue };
                let mut around = Vec::new();
                if y > 0 {
                    around.push((x, y - 1));
                }
                if x + 1 < w {
                    around.push((x + 1, y));
                }
                if y + 1 < h {
                    around.push((x, y + 1));
                }
                if x > 0 {
                    around.push((x - 1, y));
                }
                for (nx, ny) in around {
                    if cell(nx, ny) == b'#' {
                        continue;
                    }
                    let there = here + cost_of(cell(nx, ny));
                    if best[ny][nx].map_or(true, |old| there < old) {
                        best[ny][nx] = Some(there);
                        changed = true;
                    }
                }
            }
        }
    }
    best[end.y][end.x]
}

const FIELDS: [&[&str]; 4] = [
    &["19111", "19191", "11191"],
    &["1#1", "1#1", "111"],
    &["12345", "54321", "13531", "97979"],
    &["1#9", "###", "9#1"],
];

#[test]
fn without_limits_the_cheapest_walk_is_found() {
    for rows in FIELDS {
        let grid = grid_of(rows);
        for sy in 0..rows.len() {
            for sx in 0..rows[0].len() {
                if rows[sy].as_bytes()[sx] == b'#' {
                    continue;
                }
                for ey in 0..rows.len() {
                    for ex in 0..rows[0].len() {
                        let want = cheapest_walk(rows, at(sx, sy), at(ex, ey));
                        let got = shortest_constrained_path(&grid, at(sx, sy), at(ex, ey), 0, usize::MAX);
                        if rows[ey].as_bytes()[ex] == b'#' {
                            assert_eq!(got, Err(SearchError::NoPathFound));
                        } else {
                            assert_eq!(got.ok(), want, "{rows:?} {sx},{sy} -> {ex},{ey}");
                        }
                    }
                }
            }
        }
    }
}

#[test]
fn the_same_search_gives_the_same_cost() {
    for rows in FIELDS {
        let grid = grid_of(rows);
        let end = at(rows[0].len() - 1, rows.len() - 1);
        for (min_run, max_run) in [(0, 3), (1, 3), (2, 4), (4, 10), (0, usize::MAX)] {
            let first = shortest_constrained_path(&grid, at(0, 0), end, min_run, max_run);
            let second = shortest_constrained_path(&grid, at(0, 0), end, min_run, max_run);
            assert_eq!(first, second);
            let lim = RunLimits { min_run, max_run };
            assert_eq!(dijkstra(&grid, at(0, 0), end, lim), first.ok());
        }
    }
}

#[test]
fn a_dearer_cell_never_makes_the_walk_cheaper() {
    let rows = ["12345", "54321", "13531", "97979"];
    let grid = grid_of(&rows);
    let end = at(4, 3);
    for (min_run, max_run) in [(0, 3), (1, 3), (2, 4), (0, usize::MAX)] {
        let before = shortest_constrained_path(&grid, at(0, 0), end, min_run, max_run).unwrap();
        for y in 0..rows.len() {
            for x in 0..rows[0].len() {
                let mut dearer: Vec<Vec<u8>> = rows.iter().map(|row| row.as_bytes().to_vec()).collect();
                if dearer[y][x] == b'9' {
                    continue;
                }
                dearer[y][x] += 1;
                let raised = Grid::from_rows(dearer).unwrap();
                let after = shortest_constrained_path(&raised, at(0, 0), end, min_run, max_run).unwrap();
                assert!(after >= before);
                assert!(after <= before + 1);
            }
        }
    }
}

#[test]
fn exact_costs_under_run_limits() {
    let grid = grid_of(&["1111", "9991", "9991"]);
    assert_eq!(shortest_constrained_path(&grid, at(0, 0), at(3, 2), 0, 3), Ok(5));
    assert_eq!(shortest_constrained_path(&grid, at(0, 0), at(3, 2), 0, 2), Ok(13));
    assert_eq!(shortest_constrained_path(&grid, at(0, 0), at(3, 2), 0, 1), Ok(29));
    assert_eq!(shortest_constrained_path(&grid, at(0, 0), at(3, 2), 3, 3), Err(SearchError::NoPathFound));
    assert_eq!(shortest_constrained_path(&grid, at(0, 0), at(3, 0), 3, 3), Ok(3));
    assert_eq!(shortest_constrained_path(&grid, at(0, 0), at(2, 0), 3, 3), Err(SearchError::NoPathFound));
    let wide = grid_of(&["11111", "99999", "99991"]);
    assert_eq!(shortest_constrained_path(&wide, at(0, 0), at(4, 2), 2, 4), Ok(14));
}

#[test]
fn next_states_obey_the_run_limits() {
    let grid = grid_of(&["123", "456", "789"]);
    let lim = RunLimits { min_run: 0, max_run: 2 };
    let centre = SearchState { pos: at(1, 1), dir: Direction::East, run: 1 };
    assert_eq!(
        centre.next(&grid, lim),
        vec![
            SearchState { pos: at(1, 0), dir: Direction::North, run: 1 },
            SearchState { pos: at(2, 1), dir: Direction::East, run: 2 },
            SearchState { pos: at(1, 2), dir: Direction::South, run: 1 },
        ]
    );
    let tired = SearchState { pos: at(1, 1), dir: Direction::East, run: 2 };
    assert_eq!(
        tired.next(&grid, lim),
        vec![
            SearchState { pos: at(1, 0), dir: Direction::North, run: 1 },
            SearchState { pos: at(1, 2), dir: Direction::South, run: 1 },
        ]
    );
    let bound = RunLimits { min_run: 2, max_run: 3 };
    assert_eq!(
        centre.next(&grid, bound),
        vec![SearchState { pos: at(2, 1), dir: Direction::East, run: 2 }]
    );
    let corner = SearchState { pos: at(2, 0), dir: Direction::East, run: 1 };
    assert_eq!(corner.next(&grid, bound), Vec::new());
    assert_eq!(
        corner.next(&grid, lim),
        vec![SearchState { pos: at(2, 1), dir: Direction::South, run: 1 }]
    );
    let walled = grid_of(&["1#", "11"]);
    let fresh = SearchState { pos: at(0, 0), dir: Direction::East, run: 0 };
    assert_eq!(
        fresh.next(&walled, lim),
        vec![SearchState { pos: at(0, 1), dir: Direction::South, run: 1 }]
    );
    assert_eq!(fresh.offset(&walled, Direction::East), None);
    assert_eq!(fresh.offset(&walled, Direction::North), None);
    assert_eq!(cost_of(b'7'), 7);
    assert_eq!(cost_of(b'.'), 0);
}

#[test]
fn the_queue_hands_out_the_smallest_key_first() {
    let mut queue: MinHeap<usize> = MinHeap::new();
    assert!(queue.is_empty());
    assert_eq!(queue.pop(), None);
    for (i, key) in [5u64, 3, 9, 1, 7, 3, 0, 8].into_iter().enumerate() {
        queue.push(key, i);
    }
    assert_eq!(queue.len(), 8);
    let mut keys = Vec::new();
    let mut items = Vec::new();
    while let Some((key, item)) = queue.pop() {
        keys.push(key);
        items.push(item);
    }
    assert_eq!(keys, vec![0, 1, 3, 3, 5, 7, 8, 9]);
    items.sort();
    assert_eq!(items, vec![0, 1, 2, 3, 4, 5, 6, 7]);
    assert!(queue.is_empty());
}

#[test]
fn grid_neighbours_stay_on_the_grid_and_off_walls() {
    let grid = grid_of(&[".#.", "...", "#.."]);
    assert_eq!(grid.passable_neighbors4(at(1, 1)), vec![at(2, 1), at(1, 2), at(0, 1)]);
    assert_eq!(grid.passable_neighbors4(at(0, 0)), vec![at(0, 1)]);
    assert_eq!(grid.passable_neighbors4(at(2, 2)), vec![at(2, 1), at(1, 2)]);
    assert_eq!(grid.passable_neighbors4(at(7, 7)), Vec::new());
    assert_eq!(grid.neighbor(at(0, 0), Direction::North), None);
    assert_eq!(grid.neighbor(at(0, 0), Direction::West), None);
    assert_eq!(grid.neighbor(at(0, 0), Direction::East), Some(at(1, 0)));
    assert_eq!(grid.neighbor(at(2, 2), Direction::South), None);
    assert!(!grid.is_passable(at(1, 0)));
    assert!(grid.is_passable(at(1, 1)));
    assert!(!grid.is_passable(at(3, 0)));
    assert_eq!(grid.find_first(b'.'), Some(at(0, 0)));
    assert_eq!(grid.find_last(b'.'), Some(at(2, 2)));
    assert_eq!(grid.find_first(b'#'), Some(at(1, 0)));
    assert_eq!(grid.find_last(b'#'), Some(at(0, 2)));
    assert_eq!(grid.find_first(b'x'), None);
}

/// The length of a longest walk that enters no cell twice, by trying
/// every walk.
fn longest_walk(
    rows: &[&str],
    directed: bool,
    here: Coordinate,
    end: Coordinate,
    seen: &mut Vec<Coordinate>,
) -> Option<u64> {
    if here == end {
        return Some(0);
    }
    seen.push(here);
    let mut best = None;
    let steps: [(i64, i64, u8); 4] = [(0, -1, b'^'), (1, 0, b'>'), (0, 1, b'v'), (-1, 0, b'<')];
    for (dx, dy, slope) in steps {
        let x = here.x as i64 + dx;
        let y = here.y as i64 + dy;
        if x < 0 || y < 0 || y >= rows.len() as i64 || x >= rows[0].len() as i64 {
            continue;
        }
        let cell = rows[y as usize].as_bytes()[x as usize];
        if cell == b'#' {
            continue;
        }
        if directed && b"^>v<".contains(&cell) && cell != slope {
            continue;
        }
        let there = at(x as usize, y as usize);
        if seen.contains(&there) {
            continue;
        }
        if let Some(rest) = longest_walk(rows, directed, there, end, seen) {
            if best.map_or(true, |b| rest + 1 > b) {
                best = Some(rest + 1);
            }
        }
    }
    seen.pop();
    best
}

const MAZES: [&[&str]; 6] = [
    &["#.#####", "#.....#", "#.###.#", "#.....#", "#####.#"],
    &["#.#####", "#.>...#", "#v###.#", "#...>.#", "#####.#"],
    &["#.#####", "#.<...#", "#v###.#", "#...<.#", "#####.#"],
    &["#.###", "#...#", "#...#", "###.#"],
    &["#.#######", "#...#...#", "#.#.#.#.#", "#.......#", "#.#.#.#.#", "#...#...#", "#######.#"],
    &["#.#####", "#.....#", "###.###", "#.....#", "#.###.#", "#.....#", "#####.#"],
];

#[test]
fn the_contracted_graph_keeps_the_longest_walk() {
    for rows in MAZES {
        let grid = grid_of(rows);
        let start = grid.find_first(b'.').unwrap();
        let end = grid.find_last(b'.').unwrap();
        for directed in [false, true] {
            let want = longest_walk(rows, directed, start, end, &mut Vec::new());
            let got = longest_simple_path(&grid, start, end, directed);
            assert_eq!(got.ok(), want, "{rows:?} directed: {directed}");
        }
    }
}

#[test]
fn edges_weigh_as_many_steps_as_their_corridors() {
    let rows = ["#.#####", "#.....#", "#.###.#", "#.....#", "#####.#"];
    let grid = grid_of(&rows);
    let start = at(1, 0);
    let end = at(5, 4);
    assert_eq!(get_junction_coords(&grid, start, end), vec![start, end, at(1, 1), at(5, 3)]);
    let graph = get_simple_graph(&grid, start, end, false);
    assert_eq!(graph.node_count(), 4);
    assert_eq!(graph.edges(0), vec![Edge { to: 2, weight: 1 }]);
    assert_eq!(graph.edges(1), vec![Edge { to: 3, weight: 1 }]);
    assert_eq!(
        graph.edges(2),
        vec![Edge { to: 0, weight: 1 }, Edge { to: 3, weight: 6 }, Edge { to: 3, weight: 6 }]
    );
    assert_eq!(graph.longest_path(0, 1), Some(8));
    assert_eq!(walk_corridor(&grid, false, start, end, at(1, 1), Direction::East), Some((at(5, 3), 6)));
    assert_eq!(walk_corridor(&grid, false, start, end, at(1, 1), Direction::West), None);
    assert_eq!(walk_corridor(&grid, false, start, end, at(1, 1), Direction::North), Some((start, 1)));
    assert_eq!(
        get_adjacent(&grid, at(1, 1), false),
        vec![(Direction::North, at(1, 0)), (Direction::East, at(2, 1)), (Direction::South, at(1, 2))]
    );
}

#[test]
fn a_chain_of_edges_weighs_their_sum() {
    let nodes = vec![at(0, 0), at(1, 0), at(2, 0), at(3, 0)];
    let adj = vec![
        vec![Edge { to: 1, weight: 3 }],
        vec![Edge { to: 0, weight: 3 }, Edge { to: 2, weight: 4 }],
        vec![Edge { to: 1, weight: 4 }, Edge { to: 3, weight: 5 }],
        vec![Edge { to: 2, weight: 5 }],
    ];
    let graph = JunctionGraph::new(nodes, adj.clone()).unwrap();
    assert_eq!(graph.longest_path(0, 3), Some(12));
    assert_eq!(graph.longest_path(3, 0), Some(12));
    assert_eq!(graph.longest_path(1, 2), Some(4));
    let mut stack = Vec::new();
    assert_eq!(search_simple_graph(&adj, 0, 3, &mut stack), Some(12));
    assert!(stack.is_empty());
    let mut stack = vec![2];
    assert_eq!(search_simple_graph(&adj, 0, 3, &mut stack), None);
    assert_eq!(stack, vec![2]);
}

/// A counter that runs up to `tail + period - 1` and then falls back to
/// `tail`. Its fingerprint is the count, or what is left of it after
/// division by `fold` where that is set.
struct Wheel {
    tail: u64,
    period: u64,
    fold: Option<u64>,
}

impl Simulation for Wheel {
    type State = u64;

    fn valid(&self, s: u64) -> bool {
        s < self.tail + self.period
    }

    fn step_of(&self, s: u64) -> u64 {
        if s + 1 == self.tail + self.period {
            self.tail
        } else {
            s + 1
        }
    }

    fn fingerprint_of(&self, s: u64) -> u64 {
        match self.fold {
            Some(m) => s % m,
            None => s,
        }
    }

    fn lemma_step_valid(&self, s: u64) {
        assert!(!self.valid(s) || self.valid(self.step_of(s)));
    }

    fn step(&self, s: &u64) -> u64 {
        self.step_of(*s)
    }

    fn fingerprint(&self, s: &u64) -> u64 {
        self.fingerprint_of(*s)
    }

    fn same(&self, a: &u64, b: &u64) -> bool {
        a == b
    }

    fn duplicate(&self, s: &u64) -> u64 {
        *s
    }
}

#[test]
fn projecting_matches_stepping_for_every_target() {
    for (tail, period) in [(0u64, 1u64), (0, 5), (3, 4), (10, 13), (6, 1)] {
        let wheel = Wheel { tail, period, fold: None };
        let mut stepped = 0u64;
        for target in 0..80usize {
            let projected = detect_period_and_project(&wheel, 0, target, 40);
            assert_eq!(projected.ok(), Some(stepped), "tail {tail} period {period} target {target}");
            stepped = wheel.step(&stepped);
        }
        let far = detect_period_and_project(&wheel, 0, 1_000_000_007, 40).ok().unwrap();
        let expected = if 1_000_000_007 < tail { 1_000_000_007 } else { tail + (1_000_000_007 - tail) % period };
        assert_eq!(far, expected);
    }
}

#[test]
fn a_wheel_too_large_for_the_budget_is_given_up() {
    let wheel = Wheel { tail: 50, period: 50, fold: None };
    assert_eq!(
        detect_period_and_project(&wheel, 0, 1000, 99).err(),
        Some(SearchError::NonTerminatingSimulation)
    );
    assert_eq!(detect_period_and_project(&wheel, 0, 99, 99).ok(), Some(99));
    assert_eq!(detect_period_and_project(&wheel, 0, 1000, 100).ok(), Some(50));
    assert_eq!(detect_period_and_project(&wheel, 0, 0, 0).ok(), Some(0));
    assert_eq!(
        detect_period_and_project(&wheel, 0, 1, 0).err(),
        Some(SearchError::NonTerminatingSimulation)
    );
}

#[test]
fn fingerprints_that_collide_never_give_a_wrong_state() {
    let wheel = Wheel { tail: 10, period: 13, fold: Some(7) };
    let mut stepped = 0u64;
    for target in 0..80usize {
        match detect_period_and_project(&wheel, 0, target, 40) {
            Ok(state) => assert_eq!(state, stepped),
            Err(e) => {
                assert_eq!(e, SearchError::NonTerminatingSimulation);
                assert!(target > 40);
            }
        }
        stepped = wheel.step(&stepped);
    }
}

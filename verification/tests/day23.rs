use grid_paths::day23::{hike, part_one, part_two};
use grid_paths::graph::{Edge, JunctionGraph};
use grid_paths::grid::{Coordinate, Grid, SearchError};
use grid_paths::trails::{get_simple_graph, longest_simple_path};

const TRAILS: &str = "#.#####################
#.......#########...###
#######.#########.#.###
###.....#.>.>.###.#.###
###v#####.#v#.###.#.###
###.>...#.#.#.....#...#
###v###.#.#.#########.#
###...#.#.#.......#...#
#####.#.#.#######.#.###
#.....#.#.#.......#...#
#.#####.#.#.#########v#
#.#...#...#...###...>.#
#.#.#v#######v###.###v#
#...#.>.#...>.>.#.###.#
#####v#.#.###v#.#.###.#
#.....#...#...#.#.#...#
#.#########.###.#.#.###
#...###...#...#...#.###
###.###.#.###.#####v###
#...#...#.#.>.>.#.>.###
#.###.###.#.###.#.#v###
#.....###...###...#...#
#####################.#
";

#[test]
fn day23_test_part_one() {
    let result = part_one(TRAILS);
    assert_eq!(result, Some(94));
}

#[test]
fn day23_test_part_two() {
    let result = part_two(TRAILS);
    assert_eq!(result, Some(154));
}

#[test]
fn longest_path_walled_off_end_is_no_path() {
    let rows = vec![b"#.###".to_vec(), b"#..##".to_vec(), b"###.#".to_vec()];
    let grid = Grid::from_rows(rows).unwrap();
    let start = Coordinate { x: 1, y: 0 };
    let end = Coordinate { x: 3, y: 2 };
    assert_eq!(
        longest_simple_path(&grid, start, end, false),
        Err(SearchError::NoPathFound)
    );
    assert_eq!(
        longest_simple_path(&grid, start, end, true),
        Err(SearchError::NoPathFound)
    );
    assert_eq!(
        longest_simple_path(&grid, start, Coordinate { x: 0, y: 0 }, false),
        Err(SearchError::NoPathFound)
    );
    assert_eq!(hike(b"#.###\n#..##\n###.#\n", false), None);
}

#[test]
fn longest_path_of_a_single_corridor_is_its_length() {
    let rows = vec![b"#.###".to_vec(), b"#...#".to_vec(), b"###.#".to_vec()];
    let grid = Grid::from_rows(rows).unwrap();
    let start = Coordinate { x: 1, y: 0 };
    let end = Coordinate { x: 3, y: 2 };
    assert_eq!(longest_simple_path(&grid, start, end, false), Ok(4));
    assert_eq!(longest_simple_path(&grid, start, start, false), Ok(0));
    let graph = get_simple_graph(&grid, start, end, false);
    assert_eq!(graph.node_count(), 2);
    assert_eq!(graph.node(0), start);
    assert_eq!(graph.node(1), end);
    assert_eq!(graph.edges(0), vec![Edge { to: 1, weight: 4 }]);
    assert_eq!(graph.edges(1), vec![Edge { to: 0, weight: 4 }]);
    assert_eq!(graph.find(end), Some(1));
}

#[test]
fn longest_path_in_a_hand_made_graph() {
    let at = |x: usize| Coordinate { x, y: 0 };
    let nodes = vec![at(0), at(1), at(2), at(3)];
    let adj = vec![
        vec![Edge { to: 1, weight: 5 }, Edge { to: 2, weight: 1 }],
        vec![Edge { to: 3, weight: 1 }, Edge { to: 2, weight: 7 }],
        vec![Edge { to: 3, weight: 2 }, Edge { to: 1, weight: 7 }],
        vec![],
    ];
    let graph = JunctionGraph::new(nodes, adj).unwrap();
    assert_eq!(graph.longest_path(0, 3), Some(14));
    assert_eq!(graph.longest_path(3, 0), None);
    assert_eq!(graph.longest_path(2, 2), Some(0));
    assert_eq!(graph.longest_path(9, 0), None);
    assert!(JunctionGraph::new(vec![at(0)], vec![vec![Edge { to: 1, weight: 1 }]]).is_none());
}

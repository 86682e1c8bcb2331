use grid_paths::day17::{cross, part_one, part_two};
use grid_paths::grid::{Coordinate, Grid, SearchError};
use grid_paths::pathfinder::shortest_constrained_path;

const CITY: &str = "2413432311323
3215453535623
3255245654254
3446585845452
4546657867536
1438598798454
4457876987766
3637877979653
4654967986887
4564679986453
1224686865563
2546548887735
4322674655533
";

#[test]
fn day17_test_part_one() {
    let result = part_one(CITY);
    assert_eq!(result, Some(102));
}

#[test]
fn day17_test_part_two() {
    let result = part_two(CITY);
    assert_eq!(result, Some(94));
}

#[test]
fn day17_long_runs_only() {
    let field = "111111111111\n999999999991\n999999999991\n999999999991\n999999999991\n";
    assert_eq!(part_two(field), Some(71));
    assert_eq!(cross(field.as_bytes(), 4, 10), Some(71));
}

#[test]
fn shortest_path_walled_off_end_is_no_path() {
    let rows = vec![b"11111".to_vec(), b"111##".to_vec(), b"111#1".to_vec()];
    let grid = Grid::from_rows(rows).unwrap();
    let start = Coordinate { x: 0, y: 0 };
    let end = Coordinate { x: 4, y: 2 };
    assert_eq!(
        shortest_constrained_path(&grid, start, end, 0, 3),
        Err(SearchError::NoPathFound)
    );
    assert_eq!(
        shortest_constrained_path(&grid, start, Coordinate { x: 9, y: 9 }, 0, 3),
        Err(SearchError::NoPathFound)
    );
    assert_eq!(shortest_constrained_path(&grid, start, start, 0, 3), Ok(0));
    assert_eq!(shortest_constrained_path(&grid, start, start, 1, 3), Ok(4));
}

use grid_paths::day10::{
    blank_marks, connects, count_enclosed, find_loop, get_dir, next_dir, part_one, part_two,
    walk_loop,
};
use grid_paths::grid::{Coordinate, Direction, Grid};

const FIELD: &str = "FF7FSF7F7F7F7F7F---7
L|LJ||||||||||||F--J
FL-7LJLJ||||||LJL-77
F--JF--7||LJLJ7F7FJ-
L---JF-JLJ.||-FJLJJ7
|F|F-JF---7F7-L7L|7|
|FFJF7L7F-JF7|JL---7
7-L-JL7||F7|L7F-7F7|
L.L7LFJ|||||FJL7||LJ
L7JLJL-JLJLJL--JLJ.L
";

const SQUARE: &str = ".....
.S-7.
.|.|.
.L-J.
.....
";

#[test]
fn day10_test_part_one() {
    let result = part_one(FIELD);
    assert_eq!(result, Some(80));
}

#[test]
fn day10_test_part_two() {
    let result = part_two(FIELD);
    assert_eq!(result, Some(10));
}

#[test]
fn day10_small_loops() {
    assert_eq!(part_one(SQUARE), Some(4));
    assert_eq!(part_two(SQUARE), Some(2));
    assert_eq!(part_two(".....\n.F-7.\n.|.|.\n.L-S.\n.....\n"), Some(1));
    assert_eq!(part_one("7-F7-\n.FJ|7\nSJLL7\n|F--J\nLJ.LJ\n"), Some(8));
    assert_eq!(part_one("S.\n..\n"), None);
    assert_eq!(part_one("S-\n..\n"), None);
    assert_eq!(part_one("..\n..\n"), None);
    assert_eq!(part_one("S\n--\n"), None);
    assert_eq!(part_two("F7\nLJ\n"), None);
    assert_eq!(part_one("S7\nLJ\n"), Some(2));
    assert_eq!(part_two("S7\nLJ\n"), Some(0));
}

#[test]
fn day10_walk_marks_the_loop() {
    let grid = Grid::from_rows(SQUARE.lines().map(|l| l.as_bytes().to_vec()).collect()).unwrap();
    let start = Coordinate { x: 1, y: 1 };
    assert_eq!(get_dir(&grid, start), Some(Direction::South));
    assert!(connects(&grid, start, Direction::East));
    assert!(!connects(&grid, start, Direction::North));
    assert!(!connects(&grid, Coordinate { x: 0, y: 0 }, Direction::West));
    let (steps, marks) = walk_loop(&grid, start).unwrap();
    assert_eq!(steps, 8);
    let count: usize = marks.iter().map(|row| row.iter().filter(|m| **m).count()).sum();
    assert_eq!(count, 8);
    assert!(marks[1][1] && marks[3][3] && !marks[2][2] && !marks[0][0]);
    assert_eq!(count_enclosed(&grid, &marks), 2);
    assert_eq!(count_enclosed(&grid, &blank_marks(&grid)), 0);
    assert!(find_loop(SQUARE.as_bytes()).is_some());
    assert_eq!(next_dir(b'L', Direction::South), Some(Direction::East));
    assert_eq!(next_dir(b'L', Direction::West), Some(Direction::North));
    assert_eq!(next_dir(b'-', Direction::East), Some(Direction::East));
    assert_eq!(next_dir(b'-', Direction::North), Some(Direction::West));
    assert_eq!(next_dir(b'S', Direction::North), None);
    assert_eq!(next_dir(b'.', Direction::North), None);
}

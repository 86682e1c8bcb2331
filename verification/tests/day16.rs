use grid_paths::day16::{brightest, part_one, part_two, search};
use grid_paths::grid::{Direction, Grid};

const CONTRAPTION: &str = r".|...\....
|.-.\.....
.....|-...
........|.
..........
.........\
..../.\\..
.-.-/..|..
.|....-|.\
..//.|....
";

#[test]
fn day16_test_part_one() {
    let result = part_one(CONTRAPTION);
    assert_eq!(result, Some(46));
}

#[test]
fn day16_test_part_two() {
    let result = part_two(CONTRAPTION);
    assert_eq!(result, Some(51));
}

#[test]
fn beam_in_empty_field_lights_one_line() {
    let grid = Grid::from_rows(vec![b"...".to_vec(), b"...".to_vec()]).unwrap();
    assert_eq!(search(&grid, 0, 0, Direction::East), 3);
    assert_eq!(search(&grid, 2, 1, Direction::North), 2);
    assert_eq!(search(&grid, 7, 7, Direction::North), 0);
    assert_eq!(brightest(&grid), 3);
    assert_eq!(part_one("..\n.\n"), None);
}

#[test]
fn direction_next_and_offset() {
    assert_eq!(Direction::East.next(b'/'), vec![Direction::North]);
    assert_eq!(Direction::East.next(b'\\'), vec![Direction::South]);
    assert_eq!(Direction::East.next(b'|'), vec![Direction::North, Direction::South]);
    assert_eq!(Direction::North.next(b'|'), vec![Direction::North]);
    assert_eq!(Direction::South.next(b'-'), vec![Direction::East, Direction::West]);
    assert_eq!(Direction::West.next(b'.'), vec![Direction::West]);
    assert_eq!(Direction::North.offset(3, 0, 9, 9), None);
    assert_eq!(Direction::North.offset(3, 1, 9, 9), Some((3, 0)));
    assert_eq!(Direction::East.offset(9, 1, 9, 9), None);
    assert_eq!(Direction::South.offset(9, 8, 9, 9), Some((9, 9)));
    assert_eq!(Direction::West.offset(0, 8, 9, 9), None);
}

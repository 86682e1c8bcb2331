use grid_paths::day18::{
    corners, hex, part_one, part_two, read_direction, read_instruction, shoelace_formula, Input,
};
use grid_paths::grid::Direction;

const PLAN: &str = "R 6 (#70c710)
D 5 (#0dc571)
L 2 (#5713f0)
D 2 (#d2c081)
R 2 (#59c680)
D 2 (#411b91)
L 5 (#8ceee2)
U 2 (#caa173)
L 1 (#1b58a2)
U 2 (#caa171)
R 2 (#7807d2)
U 3 (#a77fa3)
L 2 (#015232)
U 2 (#7a21e3)
";

#[test]
fn day18_test_part_one() {
    let result = part_one(PLAN);
    assert_eq!(result, Some(62));
}

#[test]
fn day18_test_part_two() {
    let result = part_two(PLAN);
    assert_eq!(result, Some(952408144115));
}

#[test]
fn day18_instructions_as_written() {
    assert_eq!(
        read_instruction(b"R 6 (#70c710)", false),
        Some(Input { dir: Direction::East, amount: 6 })
    );
    assert_eq!(
        read_instruction(b"R 6 (#70c710)", true),
        Some(Input { dir: Direction::East, amount: 461937 })
    );
    assert_eq!(
        read_instruction(b"U -3 (#0000F3)", true),
        Some(Input { dir: Direction::North, amount: 15 })
    );
    assert_eq!(
        read_instruction(b"U -3 x", false),
        Some(Input { dir: Direction::North, amount: -3 })
    );
    assert_eq!(read_instruction(b"X 6 (#70c710)", false), None);
    assert_eq!(read_instruction(b"R x (#70c710)", false), None);
    assert_eq!(read_instruction(b"R 6 (#70c714)", true), None);
    assert_eq!(read_instruction(b"R 6 (#70g710)", true), None);
    assert_eq!(read_instruction(b"R 6 (#70c71)", true), None);
    assert_eq!(read_instruction(b"R 6", true), None);
    assert_eq!(read_direction(&b"D".to_vec()), Some(Direction::South));
    assert_eq!(read_direction(&b"L".to_vec()), Some(Direction::West));
    assert_eq!(read_direction(&b"LL".to_vec()), None);
    assert_eq!(hex(b'a'), Some(10));
    assert_eq!(hex(b'F'), Some(15));
    assert_eq!(hex(b'g'), None);
    assert_eq!(part_one("R 6\nQ 1\n"), None);
}

#[test]
fn day18_shoelace_of_small_trenches() {
    let step = |dir, amount| Input { dir, amount };
    let square = vec![
        step(Direction::East, 2),
        step(Direction::South, 2),
        step(Direction::West, 2),
        step(Direction::North, 2),
    ];
    assert_eq!(corners(&square), Some(vec![(2, 0), (2, 2), (0, 2), (0, 0)]));
    assert_eq!(shoelace_formula(square), Some(9));
    assert_eq!(shoelace_formula(vec![]), Some(1));
    assert_eq!(shoelace_formula(vec![step(Direction::East, 3)]), Some(1));
    assert_eq!(
        shoelace_formula(vec![step(Direction::East, 3), step(Direction::West, 3)]),
        Some(4)
    );
    assert_eq!(shoelace_formula(vec![step(Direction::East, 0x4000_0001)]), None);
    assert_eq!(shoelace_formula(vec![step(Direction::North, i64::MIN)]), None);
    assert_eq!(Direction::West.add((5, 5), 7), (-2, 5));
    assert_eq!(Direction::North.add((5, 5), 7), (5, -2));
}

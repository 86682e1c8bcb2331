use grid_paths::day11::{expand, galaxies, part_one, part_two, weigh_cols, weigh_rows};
use grid_paths::grid::{Coordinate, Grid};

const IMAGE: &str = "...#......
.......#..
#.........
..........
......#...
.#........
.........#
..........
.......#..
#...#.....
";

fn image() -> Grid {
    Grid::from_rows(IMAGE.lines().map(|l| l.as_bytes().to_vec()).collect()).unwrap()
}

#[test]
fn day11_test_part_one() {
    let result = part_one(IMAGE);
    assert_eq!(result, Some(374));
}

#[test]
fn day11_test_part_two() {
    let result = part_two(IMAGE);
    assert_eq!(result, Some(82000210));
}

#[test]
fn day11_expansion_by_other_factors() {
    let g = image();
    assert_eq!(expand(&g, 1), Some(292));
    assert_eq!(expand(&g, 10), Some(1030));
    assert_eq!(expand(&g, 100), Some(8410));
    assert_eq!(expand(&g, u64::MAX), None);
    assert_eq!(part_one("#.\n#\n"), None);
    assert_eq!(part_two("..\n..\n"), Some(0));
    assert_eq!(part_two("#.#\n"), Some(1000001));
}

#[test]
fn day11_weights_and_galaxies() {
    let g = Grid::from_rows(vec![b"#..".to_vec(), b"...".to_vec(), b"..#".to_vec()]).unwrap();
    assert_eq!(weigh_rows(&g, 7), vec![1, 7, 1]);
    assert_eq!(weigh_cols(&g, 7), vec![1, 7, 1]);
    assert_eq!(
        galaxies(&g),
        vec![Coordinate { x: 0, y: 0 }, Coordinate { x: 2, y: 2 }]
    );
    assert_eq!(expand(&g, 7), Some(16));
}

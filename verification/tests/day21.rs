use grid_paths::day21::{
    advance, combine, distances, only_start, part_one, part_two, plots_after, relax, start_table,
    Coords,
};
use grid_paths::grid::{Coordinate, Grid};

const GARDEN: &str = "...........
.....###.#.
.###.##..#.
..#.#...#..
....#.#....
.##..S####.
.##..#...#.
.......##..
.##.#.####.
.##..##.##.
...........
";

fn garden() -> Grid {
    Grid::from_rows(GARDEN.lines().map(|l| l.as_bytes().to_vec()).collect()).unwrap()
}

#[test]
fn day21_test_part_one() {
    let result = part_one(GARDEN);
    assert_eq!(result, Some(42));
}

#[test]
fn day21_part_two_combines_the_flood_counts() {
    assert_eq!(part_two(GARDEN), Some(3314964269439));
    assert_eq!(part_two("...\n.#.\n"), None);
    assert_eq!(combine(39, 42, 0, 0), Some(3314964269439));
    assert_eq!(combine(1, 0, 0, 0), Some(202301 * 202301));
    assert_eq!(combine(0, 0, 1, 0), None);
    assert_eq!(combine(4294836225, 4294836225, 0, 0), None);
}

#[test]
fn plots_after_a_few_steps() {
    let g = garden();
    let start = Coordinate { x: 5, y: 5 };
    assert_eq!(plots_after(&g, start, 0), 1);
    assert_eq!(plots_after(&g, start, 1), 2);
    assert_eq!(plots_after(&g, start, 2), 4);
    assert_eq!(plots_after(&g, start, 3), 6);
    assert_eq!(plots_after(&g, start, 6), 16);
}

#[test]
fn flood_rounds_and_distances() {
    let g = Grid::from_rows(vec![b"S.#".to_vec(), b"..#".to_vec(), b"#..".to_vec()]).unwrap();
    let start = Coordinate { x: 0, y: 0 };
    let marks = advance(&g, &only_start(&g, start));
    assert_eq!(
        marks,
        vec![vec![false, true, false], vec![true, false, false], vec![false, false, false]]
    );
    let t1 = relax(&g, &start_table(&g, start), 1);
    assert_eq!(
        t1,
        vec![
            vec![Some(0), Some(1), None],
            vec![Some(1), None, None],
            vec![None, None, None]
        ]
    );
    assert_eq!(
        distances(&g, start, 3),
        vec![
            vec![Some(0), Some(1), None],
            vec![Some(1), Some(2), None],
            vec![None, Some(3), None]
        ]
    );
    assert_eq!(
        distances(&g, start, 9),
        vec![
            vec![Some(0), Some(1), None],
            vec![Some(1), Some(2), None],
            vec![None, Some(3), Some(4)]
        ]
    );
}

#[test]
fn garden_coordinates() {
    let g = garden();
    assert_eq!(g.get_coords(b'S'), Some(Coords::new(5, 5)));
    assert_eq!(g.get_coords(b'x'), None);
    assert_eq!(g.get_max_x(), 11);
    assert_eq!(g.get_max_y(), 11);
    assert!(g.check_valid(Coords::new(0, 0)));
    assert!(!g.check_valid(Coords::new(5, 1)));
    assert!(!g.check_valid(Coords::new(-1, 0)));
    assert!(!g.check_valid(Coords::new(0, 11)));
    assert_eq!(g.wrap(Coords::new(-1, 11)), Coords::new(10, 0));
    assert_eq!(g.wrap(Coords::new(3, 4)), Coords::new(3, 4));
    assert_eq!(Coords::new(1, 2).add(Coords::new(-3, 4)), Coords::new(-2, 6));
    assert_eq!(
        g.get_adjacent(Coords::new(0, 0), false),
        vec![Coords::new(1, 0), Coords::new(0, 1)]
    );
    assert_eq!(
        g.get_adjacent(Coords::new(0, 0), true),
        vec![Coords::new(0, 10), Coords::new(1, 0), Coords::new(0, 1), Coords::new(10, 0)]
    );
}

use grid_paths::day14::{part_one, part_two, tilt_line, Pattern, Platform};
use grid_paths::grid::SearchError;
use grid_paths::period::{detect_period_and_project, Simulation};

const DISH: &str = "O....#....
O.OO#....#
.....##...
OO.#O....O
.O.....O#.
O.#..O.#.#
..O..#O..O
.......O..
#....###..
#OO..#....
";

fn dish() -> Pattern {
    Pattern {
        pattern: DISH.lines().map(|l| l.as_bytes().to_vec()).collect(),
    }
}

fn text(p: &Pattern) -> Vec<String> {
    p.pattern
        .iter()
        .map(|row| String::from_utf8(row.clone()).unwrap())
        .collect()
}

#[test]
fn day14_test_part_one() {
    let result = part_one(DISH);
    assert_eq!(result, Some(136));
}

#[test]
fn day14_test_part_two() {
    let result = part_two(DISH);
    assert_eq!(result, Some(64));
}

#[test]
fn day14_ragged_text_is_refused() {
    assert_eq!(part_one("O..\n.O\n"), None);
    assert_eq!(part_two(""), None);
}

#[test]
fn tilt_line_packs_rocks_between_cubes() {
    assert_eq!(tilt_line(&b"..O.#.O.O#O".to_vec()), b"O...#OO..#O".to_vec());
    assert_eq!(tilt_line(&b"".to_vec()), b"".to_vec());
    assert_eq!(tilt_line(&b"#.O".to_vec()), b"#O.".to_vec());
    assert_eq!(tilt_line(&b".xO.O".to_vec()), b"OxO..".to_vec());
}

#[test]
fn pattern_tilt_rotate_and_cycle() {
    let p = dish();
    assert_eq!(
        text(&p.tilt_up()),
        vec![
            "OOOO.#.O..", "OO..#....#", "OO..O##..O", "O..#.OO...", "........#.", "..#....#.#",
            "..O..#.O.O", "..O.......", "#....###..", "#....#....",
        ]
    );
    assert_eq!(
        text(&p.cycle()),
        vec![
            ".....#....", "....#...O#", "...OO##...", ".OO#......", ".....OOO#.", ".O#...O#.#",
            "....O#....", "......OOOO", "#...O###..", "#..OO#....",
        ]
    );
    let small = Pattern { pattern: vec![b"ab".to_vec(), b"cd".to_vec(), b"ef".to_vec()] };
    assert_eq!(text(&small.rotate()), vec!["eca", "fdb"]);
    assert_eq!(text(&small.rotate_rev()), vec!["bdf", "ace"]);
    assert_eq!(text(&small.rotate().rotate_rev()), vec!["ab", "cd", "ef"]);
    assert_eq!(p.get_weight(), 104);
    assert_eq!(p.get_weight_after_cycles(3), 69);
}

#[test]
fn period_projection_matches_stepping() {
    let sim = Platform;
    let mut stepped = dish();
    for target in 0..40usize {
        let projected = detect_period_and_project(&sim, dish(), target, 20).ok().unwrap();
        assert!(sim.same(&projected, &stepped));
        assert_eq!(sim.fingerprint(&projected), sim.fingerprint(&stepped));
        stepped = sim.step(&stepped);
    }
}

#[test]
fn period_detector_gives_up_within_budget() {
    let sim = Platform;
    let r = detect_period_and_project(&sim, dish(), 1000, 5);
    assert!(matches!(r, Err(SearchError::NonTerminatingSimulation)));
    let r = detect_period_and_project(&sim, dish(), 5, 5);
    assert!(r.is_ok());
    let r = detect_period_and_project(&sim, dish(), 0, 0);
    assert!(sim.same(&r.ok().unwrap(), &sim.duplicate(&dish())));
}

use grid_paths::day13::{get_diffs, part_one, part_two, summarize, Pattern};

const VALLEY: &str = "#.##..##.
..#.##.#.
##......#
##......#
..#.##.#.
..##..##.
#.#.##.#.

#...##..#
#....#..#
..##..###
#####.##.
#####.##.
..##..###
#....#..#
";

fn pattern(text: &str) -> Pattern {
    Pattern { pattern: text.lines().map(|l| l.as_bytes().to_vec()).collect() }
}

#[test]
fn day13_test_part_one() {
    let result = part_one(VALLEY);
    assert_eq!(result, Some(405));
}

#[test]
fn day13_test_part_two() {
    let result = part_two(VALLEY);
    assert_eq!(result, Some(400));
}

#[test]
fn day13_mirror_lines() {
    let first = pattern("#.##..##.\n..#.##.#.\n##......#\n##......#\n..#.##.#.\n..##..##.\n#.#.##.#.");
    assert_eq!(first.get_horizontal_symmetry_pos(0), None);
    assert_eq!(first.get_horizontal_symmetry_pos(1), Some(3));
    assert_eq!(first.transpose().get_horizontal_symmetry_pos(0), Some(5));
    assert_eq!(first.get_symmetry_score(0), Some(5));
    assert_eq!(first.get_symmetry_score(1), Some(300));
    assert_eq!(first.get_symmetry_score(40), None);
    let small = pattern("ab\ncd\nef");
    assert_eq!(small.transpose().pattern, vec![b"ace".to_vec(), b"bdf".to_vec()]);
    assert_eq!(pattern("#").get_symmetry_score(0), None);
    assert_eq!(pattern("#.\n.#").get_symmetry_score(2), Some(100));
    assert_eq!(get_diffs(&b"#.#x".to_vec(), &b"..##".to_vec()), 1);
    assert_eq!(get_diffs(&b"".to_vec(), &b"".to_vec()), 0);
}

#[test]
fn day13_patterns_without_a_score() {
    assert_eq!(summarize(b"#.\n#\n", 0), None);
    assert_eq!(summarize(b"#.\n.#\n", 0), None);
    assert_eq!(summarize(b"", 0), None);
    assert_eq!(summarize(b"##\n\n#\n#\n", 0), Some(101));
    assert_eq!(part_one("##\n\n\n##\n"), None);
}

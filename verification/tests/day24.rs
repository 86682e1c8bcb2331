use grid_paths::day24::{parse, read_stone, Hailstorm};

const EXAMPLE: &str = "19, 13, 30 @ -2,  1, -2
18, 19, 22 @ -1, -1, -2
20, 25, 34 @ -2, -2, -4
12, 31, 28 @ -1, -2, -1
20, 19, 15 @  1, -5, -3
";

#[test]
fn day24_parse_reads_positions_and_velocities() {
    let stones = parse(EXAMPLE.as_bytes()).unwrap();
    assert_eq!(stones.len(), 5);
    assert_eq!(stones[0], Hailstorm { px: 19, py: 13, pz: 30, vx: -2, vy: 1, vz: -2 });
    assert_eq!(stones[4], Hailstorm { px: 20, py: 19, pz: 15, vx: 1, vy: -5, vz: -3 });
}

#[test]
fn day24_lines_without_a_hailstone_are_passed_over() {
    let stones = parse(b"nothing here\n1, 2, 3 @ 4, 5, 6\n\n-1, 2, 3 @ x\n").unwrap();
    assert_eq!(stones, vec![Hailstorm { px: 1, py: 2, pz: 3, vx: 4, vy: 5, vz: 6 }]);
    assert_eq!(parse(b""), Some(Vec::new()));
}

#[test]
fn day24_numbers_that_are_not_read_refuse_the_text() {
    assert_eq!(parse(b"1, 2, 3 @ --4, 5, 6\n"), None);
    assert_eq!(parse(b"99999999999999999999, 2, 3 @ 4, 5, 6\n"), None);
    assert_eq!(parse(b"1, 2, 3 @ 4, 5, -9223372036854775809\n"), None);
    assert_eq!(
        parse(b"1, 2, 3 @ 4, 5, -9223372036854775808\n"),
        Some(vec![Hailstorm { px: 1, py: 2, pz: 3, vx: 4, vy: 5, vz: i64::MIN }])
    );
}

#[test]
fn day24_read_stone_takes_the_spans_it_is_given() {
    let line = b"1, 2, 3 @ 4, 5, 6";
    let groups = vec![
        Some((0, 17)),
        Some((0, 1)),
        Some((3, 4)),
        Some((6, 7)),
        Some((10, 11)),
        Some((13, 14)),
        Some((16, 17)),
    ];
    assert_eq!(read_stone(line, &groups), Some(Hailstorm { px: 1, py: 2, pz: 3, vx: 4, vy: 5, vz: 6 }));
    let short = vec![Some((0, 17)), Some((0, 1))];
    assert_eq!(read_stone(line, &short), None);
}

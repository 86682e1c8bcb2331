use grid_paths::day03::{
    gear_ratio, is_adjacent, neighbours, parse, part_one, part_two, Part, Symbol,
};

const EXAMPLE: &str = "467..114..
...*......
..35..633.
......#...
617*......
.....+.58.
..592.....
......755.
...$.*....
.664.598..
";

#[test]
fn day03_test_part_one() {
    assert_eq!(part_one(EXAMPLE), Some(4361));
}

#[test]
fn day03_test_part_two() {
    assert_eq!(part_two(EXAMPLE), Some(467835));
}

#[test]
fn day03_parse_finds_numbers_and_symbols() {
    let plan = parse(b"467..114..\n...*......\n.#*..").unwrap();
    assert_eq!(
        plan.parts,
        vec![
            Part { nr: 467, y: 0, x_start: 0, x_end: 2 },
            Part { nr: 114, y: 0, x_start: 5, x_end: 7 }
        ]
    );
    assert_eq!(
        plan.symbols,
        vec![Symbol { star: true, x: 3, y: 1 }, Symbol { star: false, x: 1, y: 2 }]
    );
}

#[test]
fn day03_a_number_too_large_is_refused() {
    assert!(parse(b"2147483647").is_some());
    assert!(parse(b"2147483648").is_none());
    assert_eq!(part_one("2147483648*"), None);
}

#[test]
fn day03_adjacency_is_one_step_around_the_number() {
    let part = Part { nr: 35, y: 2, x_start: 2, x_end: 3 };
    assert!(is_adjacent(&Symbol { star: true, x: 3, y: 1 }, &part));
    assert!(is_adjacent(&Symbol { star: true, x: 1, y: 3 }, &part));
    assert!(is_adjacent(&Symbol { star: true, x: 4, y: 2 }, &part));
    assert!(!is_adjacent(&Symbol { star: true, x: 5, y: 2 }, &part));
    assert!(!is_adjacent(&Symbol { star: true, x: 0, y: 2 }, &part));
    assert!(!is_adjacent(&Symbol { star: true, x: 3, y: 4 }, &part));
    assert!(!is_adjacent(&Symbol { star: true, x: 3, y: 0 }, &part));
    let corner = Part { nr: 1, y: 0, x_start: 0, x_end: 0 };
    assert!(is_adjacent(&Symbol { star: false, x: 0, y: 0 }, &corner));
    assert!(is_adjacent(&Symbol { star: false, x: 1, y: 1 }, &corner));
}

#[test]
fn day03_gear_ratio_needs_a_star_and_two_numbers() {
    let parts = vec![
        Part { nr: 467, y: 0, x_start: 0, x_end: 2 },
        Part { nr: 35, y: 2, x_start: 2, x_end: 3 },
        Part { nr: 9, y: 2, x_start: 8, x_end: 8 },
    ];
    let star = Symbol { star: true, x: 3, y: 1 };
    assert_eq!(neighbours(&parts, &star).len(), 2);
    assert_eq!(gear_ratio(&parts, &star), 16345);
    assert_eq!(gear_ratio(&parts, &Symbol { star: false, x: 3, y: 1 }), 0);
    assert_eq!(gear_ratio(&parts, &Symbol { star: true, x: 8, y: 1 }), 0);
}

#[test]
fn day03_untouched_numbers_do_not_count() {
    assert_eq!(part_one("12.34\n.....\n"), Some(0));
    assert_eq!(part_one("12#34\n"), Some(46));
    assert_eq!(part_two("12*34\n"), Some(408));
    assert_eq!(part_two("12*#34\n"), Some(0));
    assert_eq!(part_two("65536*65536\n"), None);
    assert_eq!(part_one(""), Some(0));
}

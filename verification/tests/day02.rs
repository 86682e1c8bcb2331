use grid_paths::day02::{greatest, parse_game, part_one, part_two, read_game, Game};

const EXAMPLE: &str = "Game 1: 3 blue, 4 red; 1 red, 2 green, 6 blue; 2 green
Game 2: 1 blue, 2 green; 3 green, 4 blue, 1 red; 1 green, 1 blue
Game 3: 8 green, 6 blue, 20 red; 5 blue, 4 red, 13 green; 5 green, 1 red
Game 4: 1 green, 3 red, 6 blue; 3 green, 6 red; 3 green, 15 blue, 14 red
Game 5: 6 red, 1 blue, 3 green; 2 blue, 1 red, 2 green
";

#[test]
fn day02_test_part_one() {
    assert_eq!(part_one(EXAMPLE), Some(8));
}

#[test]
fn day02_test_part_two() {
    assert_eq!(part_two(EXAMPLE), Some(2286));
}

#[test]
fn day02_parse_game_reads_the_largest_handfuls() {
    assert_eq!(
        parse_game(b"Game 3: 8 green, 6 blue, 20 red; 5 blue, 4 red, 13 green; 5 green, 1 red"),
        Some(Game { id: 3, red: 20, green: 13, blue: 6 })
    );
    assert_eq!(parse_game(b"Game 12: 1 red, 2 green, 10 blue"), Some(Game { id: 12, red: 1, green: 2, blue: 10 }));
}

#[test]
fn day02_a_game_without_a_colour_is_refused() {
    assert_eq!(parse_game(b"Game 3: 8 green, 6 blue"), None);
    assert_eq!(parse_game(b"3: 8 green, 6 blue, 1 red"), None);
    assert_eq!(parse_game(b"Game 1: 8 green, 6 blue, 99999999999 red"), None);
    assert_eq!(part_one("Game 1: 8 green\n"), None);
    assert_eq!(part_one(""), Some(0));
}

#[test]
fn day02_read_game_takes_spans_as_given() {
    let line = b"Game 7: 2 red, 3 green, 4 blue";
    let ids = vec![vec![Some((0, 6)), Some((0, 5)), Some((5, 6))]];
    let reds = vec![vec![Some((8, 13)), Some((8, 9)), Some((9, 13))]];
    let greens = vec![vec![Some((15, 22)), Some((15, 16)), Some((16, 22))]];
    let blues = vec![vec![Some((24, 30)), Some((24, 25)), Some((25, 30))]];
    assert_eq!(
        read_game(line, &ids, &reds, &greens, &blues),
        Some(Game { id: 7, red: 2, green: 3, blue: 4 })
    );
    let outside = vec![vec![Some((8, 13)), Some((8, 99)), Some((9, 13))]];
    assert_eq!(read_game(line, &ids, &outside, &greens, &blues), None);
    assert_eq!(read_game(line, &Vec::new(), &reds, &greens, &blues), None);
}

#[test]
fn day02_powers_that_exceed_the_word_are_refused() {
    assert_eq!(part_two("Game 1: 65536 red, 65536 green, 1 blue\n"), None);
    assert_eq!(part_two("Game 1: 65535 red, 65537 green, 1 blue\n"), Some(4294967295));
    assert_eq!(part_one("Game 1: 65536 red, 65536 green, 1 blue\n"), Some(0));
}

#[test]
fn day02_greatest_of_a_list() {
    assert_eq!(greatest(&vec![3, 9, 2]), 9);
    assert_eq!(greatest(&Vec::new()), 0);
}

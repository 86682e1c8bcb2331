use grid_paths::day05::{
    any_holds, pair_up, part_one, part_two, pass, pass_all, pass_back, read_range, Range,
};
use grid_paths::text::{parse_i64, parse_u64, split_by, split_fields, split_lines};

const ALMANAC: &str = "seeds: 79 14 55 13

seed-to-soil map:
50 98 2
52 50 48

soil-to-fertilizer map:
0 15 37
37 52 2
39 0 15

fertilizer-to-water map:
49 53 8
0 11 42
42 0 7
57 7 4

water-to-light map:
88 18 7
18 25 70

light-to-temperature map:
45 77 23
81 45 19
68 64 13

temperature-to-humidity map:
0 69 1
1 0 69

humidity-to-location map:
60 56 37
56 93 4
";

#[test]
fn day05_test_part_one() {
    let result = part_one(ALMANAC);
    assert_eq!(result, Some(35));
}

#[test]
fn day05_test_part_two() {
    let result = part_two(ALMANAC);
    assert_eq!(result, Some(46));
}

#[test]
fn day05_badly_written_almanacs() {
    assert_eq!(part_one("no seeds here\n\nmap:\n1 2 3\n"), None);
    assert_eq!(part_one("seeds: 1 x\n\nmap:\n1 2 3\n"), None);
    assert_eq!(part_one("seeds: 1 2\n\nmap:\n1 2\n"), None);
    assert_eq!(part_one("seeds: \n\nmap:\n1 2 3\n"), None);
    assert_eq!(part_one("seeds: 5\n\nmap:\n1 2 0\n"), None);
    assert_eq!(part_two("seeds: 1 2 3\n\nmap:\n1 2 3\n"), None);
    assert_eq!(part_one("seeds: 4294967299"), Some(3));
}

#[test]
fn range_from_text() {
    assert_eq!(Range::from("50 98 2"), Range { start: 98, end: 99, modifier: -48 });
    assert_eq!(Range::from_rev("50 98 2"), Range { start: 50, end: 51, modifier: 48 });
    assert_eq!(Range::from("  7   3 1 "), Range { start: 3, end: 3, modifier: 4 });
    assert_eq!(
        Range::from("0 9223372036854775807 18446744073709551615"),
        Range { start: 9223372036854775807, end: u64::MAX, modifier: -9223372036854775807 }
    );
    assert_eq!(read_range(b"1 2", false), None);
    assert_eq!(read_range(b"1 2 0", false), None);
    assert_eq!(read_range(b"1 -2 3", false), None);
    assert_eq!(read_range(b"9223372036854775808 2 3", false), None);
    assert_eq!(Range::from_simple(79, 14), Range { start: 79, end: 92, modifier: 0 });
    assert_eq!(Range::from_simple(5, 0), Range { start: 5, end: 4, modifier: 0 });
}

#[test]
fn range_apply_saturates() {
    let down = Range { start: 0, end: 10, modifier: -5 };
    assert_eq!(down.apply(&7), 2);
    assert_eq!(down.apply(&3), 0);
    let up = Range { start: 0, end: 10, modifier: 5 };
    assert_eq!(up.apply(&(u64::MAX - 2)), u64::MAX);
    assert!(up.is_in_range(&0));
    assert!(up.is_in_range(&10));
    assert!(!up.is_in_range(&11));
}

#[test]
fn maps_pass_numbers_through() {
    let soil = vec![Range::from("50 98 2"), Range::from("52 50 48")];
    assert_eq!(pass(&soil, 79), 81);
    assert_eq!(pass(&soil, 14), 14);
    assert_eq!(pass(&soil, 99), 51);
    let overlap = vec![Range::from("0 5 5"), Range::from("100 5 5")];
    assert_eq!(pass(&overlap, 6), 1);
    let two = vec![soil, vec![Range::from("0 81 1")]];
    assert_eq!(pass_all(&two, 79), 0);
    let back = vec![vec![Range::from_rev("50 98 2")], vec![Range::from_rev("0 50 1")]];
    assert_eq!(pass_back(&back, 0), 98);
    assert!(any_holds(&pair_up(&vec![79, 14, 55, 13]).unwrap(), 92));
    assert!(!any_holds(&pair_up(&vec![79, 14, 55, 13]).unwrap(), 93));
    assert_eq!(pair_up(&vec![1, 2, 3]), None);
    assert_eq!(pair_up(&vec![0, 0]), None);
    assert_eq!(pair_up(&vec![2, u64::MAX]), None);
}

#[test]
fn text_is_split_as_written() {
    let v = |parts: &[&str]| parts.iter().map(|p| p.as_bytes().to_vec()).collect::<Vec<_>>();
    assert_eq!(split_lines(b"a\nb\r\n\nc"), v(&["a", "b", "", "c"]));
    assert_eq!(split_lines(b"a\n"), v(&["a"]));
    assert_eq!(split_lines(b"a\r"), v(&["a\r"]));
    assert_eq!(split_lines(b""), v(&[]));
    assert_eq!(split_lines(b"\n"), v(&[""]));
    assert_eq!(split_by(b"a, b,c, ", b", "), v(&["a", "b,c", ""]));
    assert_eq!(split_by(b"", b","), v(&[""]));
    assert_eq!(split_by(b"\n\n\n", b"\n\n"), v(&["", "\n"]));
    assert_eq!(split_by(b"aaa", b"aa"), v(&["", "a"]));
    assert_eq!(split_fields(b"  one\ttwo \n three"), v(&["one", "two", "three"]));
    assert_eq!(split_fields(b" \t "), v(&[]));
}

#[test]
fn numbers_are_read_as_written() {
    assert_eq!(parse_u64(b"0"), Some(0));
    assert_eq!(parse_u64(b"+17"), Some(17));
    assert_eq!(parse_u64(b"18446744073709551615"), Some(u64::MAX));
    assert_eq!(parse_u64(b"18446744073709551616"), None);
    assert_eq!(parse_u64(b"000000000000000000000000012"), Some(12));
    assert_eq!(parse_u64(b""), None);
    assert_eq!(parse_u64(b"+"), None);
    assert_eq!(parse_u64(b"-1"), None);
    assert_eq!(parse_u64(b"1 "), None);
    assert_eq!(parse_i64(b"-9223372036854775808"), Some(i64::MIN));
    assert_eq!(parse_i64(b"9223372036854775807"), Some(i64::MAX));
    assert_eq!(parse_i64(b"9223372036854775808"), None);
    assert_eq!(parse_i64(b"-9223372036854775809"), None);
    assert_eq!(parse_i64(b"-"), None);
    assert_eq!(parse_i64(b"-+1"), None);
    assert_eq!(parse_i64(b"+-1"), None);
    assert_eq!(parse_i64(b"-07"), Some(-7));
}

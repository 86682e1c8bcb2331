use grid_paths::day01::{calibrate, part_one, part_two, replace, spell_out};

const EXAMPLE: &str = "two1nine
eightwothree
abcone2threexyz
xtwone3four
4nineeightseven2
zoneight234
7pqrstsixteen
";

#[test]
fn day01_test_part_one() {
    assert_eq!(part_one(EXAMPLE), Some(209));
}

#[test]
fn day01_test_part_two() {
    assert_eq!(part_two(EXAMPLE), Some(281));
}

#[test]
fn day01_plain_digits() {
    assert_eq!(part_one("1abc2\npqr3stu8vwx\na1b2c3d4e5f\ntreb7uchet\n"), Some(142));
    assert_eq!(part_one(""), Some(0));
    assert_eq!(part_one("abc\n"), Some(0));
}

#[test]
fn day01_calibrate_takes_first_and_last_digit() {
    assert_eq!(calibrate(&b"a1b2c3d4e5f".to_vec()), 15);
    assert_eq!(calibrate(&b"treb7uchet".to_vec()), 77);
    assert_eq!(calibrate(&b"none".to_vec()), 0);
    assert_eq!(calibrate(&Vec::new()), 0);
}

#[test]
fn day01_replace_goes_from_left_to_right() {
    assert_eq!(replace(&b"aaa".to_vec(), &b"aa".to_vec(), &b"b".to_vec()), b"ba".to_vec());
    assert_eq!(replace(&b"xonex".to_vec(), &b"one".to_vec(), &b"1".to_vec()), b"x1x".to_vec());
    assert_eq!(replace(&b"one".to_vec(), &b"one".to_vec(), &Vec::new()), Vec::<u8>::new());
    assert_eq!(replace(&b"abc".to_vec(), &b"z".to_vec(), &b"y".to_vec()), b"abc".to_vec());
}

#[test]
fn day01_spell_out_keeps_overlapping_names() {
    assert_eq!(spell_out(&b"twone".to_vec()), b"two2twone1one".to_vec());
    assert_eq!(calibrate(&spell_out(&b"eightwothree".to_vec())), 83);
    assert_eq!(calibrate(&spell_out(&b"zoneight234".to_vec())), 14);
}

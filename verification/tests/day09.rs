use grid_paths::day09::{below, extrapolate, low_bits, part_one, part_two, read_history, turn, zeros};

const REPORT: &str = "0 3 6 9 12 15
1 3 6 10 15 21
10 13 16 21 30 45
";

#[test]
fn day09_test_part_one() {
    let result = part_one(REPORT);
    assert_eq!(result, Some(114));
}

#[test]
fn day09_test_part_two() {
    let result = part_two(REPORT);
    assert_eq!(result, Some(2));
}

#[test]
fn day09_histories_that_do_not_settle() {
    assert_eq!(extrapolate(&vec![]), None);
    assert_eq!(extrapolate(&vec![5]), None);
    assert_eq!(extrapolate(&vec![1, 2, 4]), None);
    assert_eq!(extrapolate(&vec![0]), Some(0));
    assert_eq!(extrapolate(&vec![7, 7]), Some(7));
    assert_eq!(extrapolate(&vec![i64::MIN, i64::MAX, 0]), None);
    assert_eq!(extrapolate(&vec![i64::MAX - 1, i64::MAX, i64::MAX]), None);
    assert_eq!(extrapolate(&vec![10, 13, 16, 21, 30, 45]), Some(68));
    assert_eq!(part_one("1 2 3\n\n"), None);
    assert_eq!(part_one("1 x 3\n"), None);
    assert_eq!(part_one("-3 -2 -1\n"), Some(0));
    assert_eq!(part_one("-3 -3\n"), Some(4294967293));
    assert_eq!(part_one(""), Some(0));
}

#[test]
fn day09_rows_of_differences() {
    assert_eq!(below(&vec![1, 3, 6, 10]), Some(vec![2, 3, 4]));
    assert_eq!(below(&vec![4]), Some(vec![]));
    assert_eq!(below(&vec![]), Some(vec![]));
    assert_eq!(below(&vec![i64::MIN, 1]), None);
    assert!(zeros(&vec![0, 0]));
    assert!(zeros(&vec![]));
    assert!(!zeros(&vec![0, 1]));
    assert_eq!(turn(&vec![1, 2, 3]), vec![3, 2, 1]);
    assert_eq!(read_history(b"1  -2 +3"), Some(vec![1, -2, 3]));
    assert_eq!(read_history(b"1 2.5"), None);
    assert_eq!(low_bits(-1), u32::MAX);
    assert_eq!(low_bits(1 << 32), 0);
}

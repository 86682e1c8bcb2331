use grid_paths::day12::{
    add_counts, arrangements, check_springs, count_line, part_one, part_two, read_lengths, unfold,
};

const RECORDS: &str = "???.### 1,1,3
.??..??...?##. 1,1,3
?#?#?#?#?#?#?#? 1,3,1,6
????.#...#... 4,1,1
????.######..#####. 1,6,5
?###???????? 3,2,1
";

#[test]
fn day12_test_part_one() {
    let result = part_one(RECORDS);
    assert_eq!(result, Some(21));
}

#[test]
fn day12_test_part_two() {
    let result = part_two(RECORDS);
    assert_eq!(result, Some(525152));
}

#[test]
fn day12_single_records() {
    assert_eq!(arrangements(&b"???.###".to_vec(), &vec![1, 1, 3]), Some(1));
    assert_eq!(arrangements(&b"?###????????".to_vec(), &vec![3, 2, 1]), Some(10));
    assert_eq!(arrangements(&b"".to_vec(), &vec![]), Some(1));
    assert_eq!(arrangements(&b"".to_vec(), &vec![1]), Some(0));
    assert_eq!(arrangements(&b"??".to_vec(), &vec![]), Some(1));
    assert_eq!(arrangements(&b"##".to_vec(), &vec![1]), Some(0));
    assert_eq!(arrangements(&b"##".to_vec(), &vec![2]), Some(1));
    assert_eq!(arrangements(&b"?".to_vec(), &vec![0]), Some(1));
    assert_eq!(count_line(b"?###???????? 3,2,1", 5), Some(506250));
    assert_eq!(count_line(b"???.### 1,1,3", 1), Some(1));
    assert_eq!(count_line(b"???.###", 1), None);
    assert_eq!(count_line(b"???.### 1,,3", 1), None);
    assert_eq!(count_line(b"??x.### 1,1,3", 1), None);
    assert_eq!(part_one("??? 1\n\n"), None);
    assert_eq!(part_one(""), Some(0));
}

#[test]
fn day12_helpers() {
    assert!(check_springs(&b".#?".to_vec()));
    assert!(!check_springs(&b".# ".to_vec()));
    assert_eq!(read_lengths(b"1,22,3"), Some(vec![1, 22, 3]));
    assert_eq!(read_lengths(b""), None);
    assert_eq!(
        unfold(&b".#".to_vec(), &vec![1], 3),
        Some((b".#?.#?.#".to_vec(), vec![1, 1, 1]))
    );
    assert_eq!(unfold(&b".#".to_vec(), &vec![1], 0), Some((vec![], vec![])));
    assert_eq!(add_counts(Some(1), Some(2)), Some(3));
    assert_eq!(add_counts(Some(u64::MAX), Some(1)), None);
    assert_eq!(add_counts(None, Some(1)), None);
}

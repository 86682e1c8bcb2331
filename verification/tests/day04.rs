use grid_paths::day04::{count_cards, count_wins, part_one, part_two, points, read_card, sum_points};

const EXAMPLE: &str = "Card 1: 41 48 83 86 17 | 83 86  6 31 17  9 48 53
Card 2: 13 32 20 16 61 | 61 30 68 82 17 32 24 19
Card 3:  1 21 53 59 44 | 69 82 63 72 16 21 14  1
Card 4: 41 92 73 84 69 | 59 84 76 51 58  5 54 83
Card 5: 87 83 26 28 32 | 88 30 70 12 93 22 82 36
Card 6: 31 18 13 56 72 | 74 77 10 23 35 67 36 11
";

#[test]
fn day04_test_part_one() {
    assert_eq!(part_one(EXAMPLE), Some(13));
}

#[test]
fn day04_test_part_two() {
    assert_eq!(part_two(EXAMPLE), Some(30));
}

#[test]
fn day04_read_card_counts_winning_numbers() {
    assert_eq!(read_card(b"Card 1: 41 48 83 86 17 | 83 86  6 31 17  9 48 53"), Some(4));
    assert_eq!(read_card(b"Card 6: 31 18 13 56 72 | 74 77 10 23 35 67 36 11"), Some(0));
    assert_eq!(read_card(b"Card 7: 5 | 5 5 5"), Some(3));
    assert_eq!(read_card(b"Card 7: 5 5 5"), None);
    assert_eq!(read_card(b"Card 7 5 | 5 5 5"), None);
    assert_eq!(read_card(b"Card 7: 5 | 99999999999"), None);
}

#[test]
fn day04_count_wins_reads_the_spans_it_is_given() {
    let left = b"41 48";
    let right = b"48  7";
    let found_left = vec![vec![Some((0, 2)), Some((0, 2))], vec![Some((2, 5)), Some((3, 5))]];
    let found_right = vec![vec![Some((0, 2)), Some((0, 2))], vec![Some((2, 5)), Some((4, 5))]];
    assert_eq!(count_wins(left, &found_left, right, &found_right), Some(1));
    let outside = vec![vec![Some((0, 9)), Some((0, 9))]];
    assert_eq!(count_wins(left, &outside, right, &found_right), None);
}

#[test]
fn day04_points_double_with_each_win() {
    assert_eq!(points(0), Some(0));
    assert_eq!(points(1), Some(1));
    assert_eq!(points(2), Some(2));
    assert_eq!(points(5), Some(16));
    assert_eq!(points(31), Some(1 << 30));
    assert_eq!(points(32), None);
    assert_eq!(sum_points(&vec![4, 2, 2, 1, 0, 0]), Some(13));
    assert_eq!(sum_points(&vec![31, 31]), None);
    assert_eq!(sum_points(&vec![31, 30]), Some((1 << 30) + (1 << 29)));
}

#[test]
fn day04_count_cards_pays_in_copies() {
    assert_eq!(count_cards(&vec![4, 2, 2, 1, 0, 0]), Some(30));
    assert_eq!(count_cards(&vec![]), Some(0));
    assert_eq!(count_cards(&vec![0, 0]), Some(2));
    assert_eq!(count_cards(&vec![9, 9]), Some(3));
    let many: Vec<usize> = vec![40; 40];
    assert_eq!(count_cards(&many), None);
}

use grid_paths::day07::{
    byte_to_card_value, compare_cards, compare_hands, compare_text, decimal, join_back, kind,
    part_one, part_two, rank_below, read_hand, total_winnings, Hand,
};
use grid_paths::sorting::{sort, tally};

const GAME: &str = "32T3K 765
T55J5 684
KK677 28
KTJJT 220
QQQJA 483
";

#[test]
fn day07_test_part_one() {
    let result = part_one(GAME);
    assert_eq!(result, Some(6440));
}

#[test]
fn day07_test_part_two() {
    let result = part_two(GAME);
    assert_eq!(result, Some(5905));
}

#[test]
fn day07_kinds_of_hands() {
    let k = |cards: &str, jokers| String::from_utf8(kind(&cards.as_bytes().to_vec(), jokers)).unwrap();
    assert_eq!(k("AAAAA", false), "5");
    assert_eq!(k("AA8AA", false), "41");
    assert_eq!(k("23332", false), "32");
    assert_eq!(k("TTT98", false), "311");
    assert_eq!(k("23432", false), "221");
    assert_eq!(k("A23A4", false), "2111");
    assert_eq!(k("23456", false), "11111");
    assert_eq!(k("", false), "");
    assert_eq!(k("AAAAAAAAAAAA", false), "12");
    assert_eq!(k("T55J5", true), "41");
    assert_eq!(k("KTJJT", true), "41");
    assert_eq!(k("QQQJA", true), "41");
    assert_eq!(k("JJJJJ", true), "5");
    assert_eq!(k("2345J", true), "2111");
    assert_eq!(k("23456", true), "11111");
    assert_eq!(k("JJ", true), "2");
}

#[test]
fn day07_sorting_and_tallying() {
    assert_eq!(sort(&vec![5, 1, 4, 1, 9]), vec![1, 1, 4, 5, 9]);
    assert_eq!(sort(&vec![]), vec![]);
    assert_eq!(tally(&vec![7, 7, 3, 7, 7, 7]), vec![(2, 7), (1, 3), (3, 7)]);
    assert_eq!(tally(&vec![]), vec![]);
    assert_eq!(decimal(0), b"0".to_vec());
    assert_eq!(decimal(12345), b"12345".to_vec());
    assert_eq!(join_back(&vec![1, 2, 10]), b"1021".to_vec());
}

#[test]
fn day07_cards_and_order() {
    assert_eq!(byte_to_card_value(&b'T', false), 128);
    assert_eq!(byte_to_card_value(&b'J', false), 129);
    assert_eq!(byte_to_card_value(&b'J', true), 0);
    assert_eq!(byte_to_card_value(&b'Q', true), 130);
    assert_eq!(byte_to_card_value(&b'K', false), 132);
    assert_eq!(byte_to_card_value(&b'A', false), 136);
    assert_eq!(byte_to_card_value(&b'9', false), b'9');
    assert_eq!(compare_text(&b"32".to_vec(), &b"311".to_vec()), 1);
    assert_eq!(compare_text(&b"3".to_vec(), &b"32".to_vec()), -1);
    assert_eq!(compare_text(&b"41".to_vec(), &b"41".to_vec()), 0);
    assert_eq!(compare_cards(&vec![1, 2, 3], &vec![1, 2]), 0);
    assert_eq!(compare_cards(&vec![1, 2, 3], &vec![1, 3]), -1);
    assert_eq!(compare_cards(&vec![9], &vec![1, 3]), 1);
    let hand = |text: &str| read_hand(&text.as_bytes().to_vec(), 5, false).unwrap();
    assert_eq!(compare_hands(&hand("33332 1"), &hand("2AAAA 1")), 1);
    assert_eq!(compare_hands(&hand("77788 1"), &hand("77888 1")), -1);
    assert_eq!(compare_hands(&hand("KK677 1"), &hand("KTJJT 1")), 1);
}

#[test]
fn day07_ranks_and_winnings() {
    let hand = |text: &str| read_hand(&text.as_bytes().to_vec(), 2, false).unwrap();
    let hands: Vec<Hand> = vec![hand("23 10"), hand("22 -3"), hand("23 7"), hand("32 1")];
    assert_eq!(rank_below(&hands, 0), 0);
    assert_eq!(rank_below(&hands, 1), 3);
    assert_eq!(rank_below(&hands, 2), 1);
    assert_eq!(rank_below(&hands, 3), 2);
    assert_eq!(total_winnings(&hands), Some(10 - 12 + 14 + 3));
    assert_eq!(part_one("22 -3\n23 1\n"), Some(4294967291));
    assert_eq!(part_one("no-space"), None);
    assert_eq!(part_one("22 3\n2 3\n"), None);
    assert_eq!(part_one("22 3\n22 x\n"), None);
    assert_eq!(part_one("22 2147483648\n"), None);
    assert_eq!(part_one(" 5\n 6\n"), Some(17));
    assert_eq!(part_two(" 5\n 6\n"), None);
    assert!(read_hand(&b"22".to_vec(), 2, false).is_none());
}

use grid_paths::day08::{cut, part_one, part_two, read_network, Network};
use grid_paths::numbers::lcm_checked;

const MAP: &str = "LLR

AAA = (BBB, BBB)
BBB = (AAA, ZZZ)
ZZZ = (ZZZ, ZZZ)
";

const GHOSTS: &str = "LR

11A = (11B, XXX)
11B = (XXX, 11Z)
11Z = (11B, XXX)
22A = (22B, XXX)
22B = (22C, 22C)
22C = (22Z, 22Z)
22Z = (22B, 22B)
XXX = (XXX, XXX)
";

fn network(text: &str) -> Network {
    let lines: Vec<Vec<u8>> = text.lines().map(|l| l.as_bytes().to_vec()).collect();
    read_network(&lines).unwrap()
}

#[test]
fn day08_test_part_one() {
    let result = part_one(MAP);
    assert_eq!(result, Some(6));
}

#[test]
fn day08_test_part_two() {
    let result = part_two(MAP);
    assert_eq!(result, Some(6));
    assert_eq!(part_two(GHOSTS), Some(6));
}

#[test]
fn day08_walks_that_find_no_goal() {
    assert_eq!(part_one(GHOSTS), None);
    assert_eq!(part_one("LR\nAAA = (BBB, BBB)\n"), None);
    assert_eq!(part_one("L\n\nAAA = (AAA, ZZZ)\nZZZ = (ZZZ, ZZZ)\n"), None);
    assert_eq!(part_one("R\n\nAAA = (AAA, QQQ)\nZZZ = (ZZZ, ZZZ)\n"), None);
    assert_eq!(part_one("R\n\nAAA = (AAA, ZZ)\n"), None);
    assert_eq!(part_one("\n\nAAA = (AAA, ZZZ)\nZZZ = (ZZZ, ZZZ)\n"), Some(0));
    assert_eq!(part_two("R\n\nBBB = (BBB, BBZ)\nBBZ = (BBZ, BBZ)\n"), None);
}

#[test]
fn network_walks_and_names() {
    let net = network("AAA = (BBB, CCC)\nBBB = (AAA, ZZZ)\nCCC = (CCC, CCZ)\nAAA = (CCC, CCC)\nZZZ = (ZZZ, ZZZ)\nCCZ = (CCZ, CCZ)");
    assert_eq!(net.find(&b"AAA".to_vec()), Some(3));
    assert_eq!(net.find(&b"QQQ".to_vec()), None);
    assert!(net.goal(4, false));
    assert!(!net.goal(5, false));
    assert!(net.goal(5, true));
    assert_eq!(net.walk(&b"LR".to_vec(), 0, false), Some(2));
    assert_eq!(net.walk(&b"R".to_vec(), 3, false), None);
    assert_eq!(net.walk(&b"R".to_vec(), 3, true), Some(2));
    assert_eq!(net.walk(&b"".to_vec(), 3, true), Some(0));
    assert_eq!(cut(&b"AAA = (BBB, CCC)".to_vec(), 7, 10), b"BBB".to_vec());
}

#[test]
fn least_common_multiples() {
    assert_eq!(lcm_checked(4, 6), Some(12));
    assert_eq!(lcm_checked(7, 7), Some(7));
    assert_eq!(lcm_checked(0, 5), Some(0));
    assert_eq!(lcm_checked(0, 0), Some(0));
    assert_eq!(lcm_checked(1, u64::MAX), Some(u64::MAX));
    assert_eq!(lcm_checked(1 << 40, 1 << 40), None);
}

use grid_paths::day15::{
    do_step, hash, insert_lens, part_one, part_two, remove_lens, trim_end, weigh_box,
};

const STEPS: &str = "rn=1,cm-,qp=3,cm=2,qp-,pc=4,ot=9,ab=5,pc-,pc=6,ot=7\n";

#[test]
fn day15_test_part_one() {
    let result = part_one(STEPS);
    assert_eq!(result, Some(1320));
}

#[test]
fn day15_test_part_two() {
    let result = part_two(STEPS);
    assert_eq!(result, Some(145));
}

#[test]
fn day15_hash_and_trim() {
    assert_eq!(hash(b"HASH"), 52);
    assert_eq!(hash(b""), 0);
    assert_eq!(hash(b"rn"), 0);
    assert_eq!(hash(b"qp"), 1);
    assert_eq!(trim_end(b"ab \t\r\n"), b"ab".to_vec());
    assert_eq!(trim_end(b" a b"), b" a b".to_vec());
    assert_eq!(trim_end(b" \n"), b"".to_vec());
    assert_eq!(part_one(""), Some(0));
    assert_eq!(part_one("a,,b"), Some(hash(b"a") + hash(b"b")));
}

#[test]
fn day15_boxes() {
    let mut lenses = vec![(b"rn".to_vec(), 1), (b"cm".to_vec(), 2)];
    insert_lens(&mut lenses, b"rn".to_vec(), 9);
    assert_eq!(lenses, vec![(b"rn".to_vec(), 9), (b"cm".to_vec(), 2)]);
    insert_lens(&mut lenses, b"ot".to_vec(), 7);
    assert_eq!(lenses.len(), 3);
    assert_eq!(weigh_box(&lenses, 3), Some(4 * (9 + 2 * 2 + 3 * 7)));
    assert_eq!(weigh_box(&vec![(b"x".to_vec(), u64::MAX)], 1), None);
    assert_eq!(
        remove_lens(&lenses, &b"cm".to_vec()),
        vec![(b"rn".to_vec(), 9), (b"ot".to_vec(), 7)]
    );
    assert_eq!(remove_lens(&lenses, &b"zz".to_vec()), lenses);
    let mut boxes: Vec<Vec<(Vec<u8>, u64)>> = vec![Vec::new(); 256];
    assert!(do_step(&mut boxes, &b"rn=1".to_vec()));
    assert!(do_step(&mut boxes, &b"qp=3".to_vec()));
    assert!(do_step(&mut boxes, &b"cm-".to_vec()));
    assert_eq!(boxes[0], vec![(b"rn".to_vec(), 1)]);
    assert_eq!(boxes[1], vec![(b"qp".to_vec(), 3)]);
    assert!(do_step(&mut boxes, &b"rnx".to_vec()));
    assert!(boxes[0].is_empty());
    assert!(!do_step(&mut boxes, &b"".to_vec()));
    assert!(!do_step(&mut boxes, &b"rn=".to_vec()));
    assert!(!do_step(&mut boxes, &b"rn=4294967296".to_vec()));
    assert!(do_step(&mut boxes, &b"rn=4294967295".to_vec()));
    assert!(do_step(&mut boxes, &b"=5".to_vec()));
    assert_eq!(part_two("a=1,,b=2"), None);
    assert_eq!(part_two("a=x"), None);
}

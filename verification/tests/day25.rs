use grid_paths::day25::{
    contract_once, count_cut, group_size, judge, merge, merge_pair, neighbours, number_of, parse,
    part_one, part_two, split_in_two, without, Wiring,
};

const DIAGRAM: &str = "jqt: rhn xhk nvd
rsh: frs pzl lsr
xhk: hfx
cmg: qnr nvd lhk bvb
rhn: xhk bvb hfx
bvb: xhk hfx
pzl: lsr hfx nvd
qnr: nvd
ntq: jqt hfx bvb xhk
nvd: lhk
lsr: lhk
rzs: qnr cmg lsr rsh
frs: qnr lhk lsr
";

#[test]
fn day25_test_part_one() {
    let result = part_one(DIAGRAM);
    assert_eq!(result, Some(54));
}

#[test]
fn day25_test_part_two() {
    let result = part_two(DIAGRAM);
    assert_eq!(result, None);
}

#[test]
fn day25_diagram_is_read_as_written() {
    let (names, wiring) = parse(b"aaa: bbb ccc\nbbb: ccc\n").unwrap();
    assert_eq!(names, vec![b"aaa".to_vec(), b"bbb".to_vec(), b"ccc".to_vec()]);
    assert_eq!(wiring.count, 3);
    assert_eq!(wiring.edges, vec![(0, 1), (0, 2), (1, 2)]);
    assert!(parse(b"aaa: bbb\nxy\n").is_none());
    let (names, wiring) = parse(b"").unwrap();
    assert!(names.is_empty() && wiring.edges.is_empty());
    assert_eq!(part_one("ab\n"), None);
    let mut list = vec![b"x".to_vec()];
    assert_eq!(number_of(&mut list, b"y".to_vec()), 1);
    assert_eq!(number_of(&mut list, b"x".to_vec()), 0);
    assert_eq!(list.len(), 2);
}

#[test]
fn day25_groups_and_cuts() {
    let wiring = Wiring { count: 4, edges: vec![(0, 1), (1, 2), (2, 3), (3, 0), (0, 2)] };
    let mut groups = vec![0, 1, 2, 3];
    assert_eq!(count_cut(&wiring, &groups), 5);
    assert_eq!(neighbours(&wiring, &groups, 0), vec![1, 3, 2]);
    merge(&mut groups, 1, 0);
    assert_eq!(groups, vec![0, 0, 2, 3]);
    assert_eq!(neighbours(&wiring, &groups, 0), vec![2, 3, 2]);
    merge(&mut groups, 3, 2);
    assert_eq!(groups, vec![0, 0, 2, 2]);
    assert_eq!(count_cut(&wiring, &groups), 3);
    assert_eq!(group_size(&groups, 0), 2);
    assert_eq!(group_size(&groups, 7), 0);
    assert_eq!(judge(&wiring, &groups, 0, 2), Some(4));
    assert_eq!(judge(&wiring, &vec![0, 2, 2, 2], 0, 2), Some(3));
    assert_eq!(judge(&wiring, &vec![0, 2, 0, 2], 0, 2), None);
    assert_eq!(without(&vec![4, 5, 6], 5), vec![4, 6]);
    assert_eq!(without(&vec![4, 5, 6], 9), vec![4, 5, 6]);
}

#[test]
fn day25_random_splits_only_report_three_cuts() {
    let wiring = Wiring { count: 4, edges: vec![(0, 1), (1, 2), (2, 3), (3, 0), (0, 2)] };
    for _ in 0..200 {
        match contract_once(&wiring) {
            Some(p) => assert!(p == 3 || p == 4),
            None => {}
        }
    }
    let p = split_in_two(&wiring, 100000).unwrap();
    assert!(p == 3 || p == 4);
    let lonely = Wiring { count: 3, edges: vec![(0, 1)] };
    assert_eq!(split_in_two(&lonely, 50), None);
    assert_eq!(split_in_two(&wiring, 0), None);
    let pair = Wiring { count: 2, edges: vec![(0, 1), (1, 0), (0, 1)] };
    assert_eq!(contract_once(&pair), Some(1));
}

#[test]
fn day25_two_components_leave_nothing_to_chance() {
    let pair = Wiring { count: 2, edges: vec![(0, 1), (1, 0), (0, 1)] };
    assert_eq!(contract_once(&pair), Some(1));
    assert_eq!(split_in_two(&pair, 3), Some(1));
    assert_eq!(split_in_two(&pair, 0), None);
    let loose = Wiring { count: 2, edges: vec![(0, 1)] };
    assert_eq!(contract_once(&loose), None);
    assert_eq!(split_in_two(&loose, 9), None);
    assert_eq!(contract_once(&Wiring { count: 1, edges: vec![(0, 0), (0, 0), (0, 0)] }), None);
    assert_eq!(contract_once(&Wiring { count: 0, edges: Vec::new() }), None);
    assert_eq!(part_one("aaa: bbb bbb bbb\n"), Some(1));
    assert_eq!(part_one("aaa: bbb\nbbb: aaa aaa\n"), Some(1));
    assert_eq!(part_one("aaa: bbb\n"), None);
    assert_eq!(part_one(""), None);
}

#[test]
fn day25_neighbours_follow_the_wires_in_order() {
    let wiring = Wiring { count: 3, edges: vec![(0, 1), (1, 2), (2, 1), (0, 2), (1, 1)] };
    assert_eq!(neighbours(&wiring, &vec![0, 1, 2], 1), vec![0, 2, 2]);
    assert_eq!(neighbours(&wiring, &vec![0, 1, 2], 0), vec![1, 2]);
    assert_eq!(neighbours(&wiring, &vec![0, 1, 1], 1), vec![0, 0]);
    assert_eq!(neighbours(&wiring, &vec![5, 5, 5], 5), Vec::<usize>::new());
    assert_eq!(neighbours(&wiring, &vec![0, 1, 2], 7), Vec::<usize>::new());
}

#[test]
fn day25_merge_pair_is_one_step_of_a_try() {
    let mut groups = vec![0, 1, 2, 3];
    let mut alive = vec![0, 1, 2, 3];
    merge_pair(&mut groups, &mut alive, 2, 0);
    assert_eq!(groups, vec![2, 1, 2, 3]);
    assert_eq!(alive, vec![1, 2, 3]);
    merge_pair(&mut groups, &mut alive, 3, 2);
    assert_eq!(groups, vec![3, 1, 3, 3]);
    assert_eq!(alive, vec![1, 3]);
}

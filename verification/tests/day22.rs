use grid_paths::day22::{
    compress, compress_fully, compress_fully_count, is_supported, parse, part_one, part_two,
    read_brick, read_brick_from, without, Brick, Coord,
};

const SNAPSHOT: &str = "1,0,1~1,2,1
0,0,2~2,0,2
0,2,3~2,2,3
0,0,4~0,2,4
2,0,5~2,2,5
0,1,6~2,1,6
1,1,8~1,1,9
";

fn brick(x1: usize, y1: usize, z1: usize, x2: usize, y2: usize, z2: usize) -> Brick {
    Brick { start: Coord { x: x1, y: y1, z: z1 }, end: Coord { x: x2, y: y2, z: z2 } }
}

#[test]
fn day22_test_part_one() {
    let result = part_one(SNAPSHOT);
    assert_eq!(result, Some(5));
}

#[test]
fn day22_test_part_two() {
    let result = part_two(SNAPSHOT);
    assert_eq!(result, Some(7));
}

#[test]
fn day22_bricks_as_written() {
    assert_eq!(read_brick(b"1,0,1~1,2,1"), Some(brick(1, 0, 1, 1, 2, 1)));
    assert_eq!(read_brick(b"1,0,0~1,2,1"), None);
    assert_eq!(read_brick(b"1,3,1~1,2,1"), None);
    assert_eq!(read_brick(b"1,0,1~1,2"), None);
    assert_eq!(read_brick(b"1,0,1-1,2,1"), None);
    assert_eq!(read_brick(b"1,0,1~1,2,4294967296"), None);
    assert_eq!(read_brick(b"1,0,1~1,2,1~"), Some(brick(1, 0, 1, 1, 2, 1)));
    assert_eq!(read_brick(b"brick 3,4,5~3,4,7 of sand"), Some(brick(3, 4, 5, 3, 4, 7)));
    assert_eq!(parse(b"1,0,1~1,2,1\n\n"), None);
    assert_eq!(parse(b""), Some(vec![]));
    assert_eq!(part_one(""), Some(0));
    assert_eq!(part_two("x"), None);
}

#[test]
fn day22_falling() {
    let mut pile = vec![brick(0, 0, 3, 0, 0, 3), brick(0, 0, 1, 1, 0, 1), brick(1, 0, 5, 1, 0, 6)];
    assert!(!is_supported(&pile, 0));
    assert!(is_supported(&pile, 1));
    assert!(pile[1].contains(&Coord { x: 1, y: 0, z: 1 }));
    assert!(!pile[1].contains(&Coord { x: 1, y: 1, z: 1 }));
    assert!(!pile[0].lies_on(&pile[1]));
    assert!(brick(0, 0, 2, 0, 0, 2).lies_on(&pile[1]));
    assert_eq!(compress(&mut pile), vec![0, 2]);
    assert_eq!(pile[0], brick(0, 0, 2, 0, 0, 2));
    assert_eq!(pile[2], brick(1, 0, 4, 1, 0, 5));
    assert_eq!(compress_fully(&mut pile), 2);
    assert_eq!(pile[2], brick(1, 0, 2, 1, 0, 3));
    assert_eq!(compress(&mut pile), Vec::<usize>::new());
    assert_eq!(compress_fully(&mut pile), 0);
    let mut rest = without(&pile, 1);
    assert_eq!(rest.len(), 2);
    assert_eq!(compress_fully_count(&mut rest), 2);
    assert_eq!(rest, vec![brick(0, 0, 1, 0, 0, 1), brick(1, 0, 1, 1, 0, 2)]);
    let mut c = Coord { x: 1, y: 2, z: 3 };
    c.down();
    assert_eq!(c, Coord { x: 1, y: 2, z: 2 });
    let mut b = brick(0, 0, 2, 0, 0, 4);
    b.down();
    assert_eq!(b, brick(0, 0, 1, 0, 0, 3));
}

#[test]
fn day22_read_brick_from_takes_the_first_match_as_given() {
    let line = b"1,0,1~1,2,1";
    let groups = vec![
        Some((0, 11)),
        Some((0, 1)),
        Some((2, 3)),
        Some((4, 5)),
        Some((6, 7)),
        Some((8, 9)),
        Some((10, 11)),
    ];
    assert_eq!(read_brick_from(line, &vec![groups.clone()]), Some(brick(1, 0, 1, 1, 2, 1)));
    assert_eq!(read_brick_from(line, &Vec::new()), None);
    let mut short = groups.clone();
    short.pop();
    assert_eq!(read_brick_from(line, &vec![short]), None);
    let mut swapped = groups;
    swapped.swap(2, 5);
    assert_eq!(read_brick_from(line, &vec![swapped]), None);
}

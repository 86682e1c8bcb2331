use grid_paths::grid::{Coordinate, Direction, Grid, SearchError};

#[test]
fn grid_from_rows_rejects_ragged_rows() {
    assert!(matches!(
        Grid::from_rows(vec![vec![1, 2], vec![3]]),
        Err(SearchError::MalformedInput)
    ));
    assert!(matches!(Grid::from_rows(vec![]), Err(SearchError::MalformedInput)));
    assert!(matches!(Grid::from_rows(vec![vec![]]), Err(SearchError::MalformedInput)));
}

#[test]
fn grid_get_is_none_off_the_grid() {
    let g = Grid::from_rows(vec![vec![1, 2, 3], vec![4, 5, 6]]).unwrap();
    assert_eq!(g.width(), 3);
    assert_eq!(g.height(), 2);
    assert_eq!(g.get(Coordinate { x: 2, y: 1 }), Some(6));
    assert_eq!(g.get(Coordinate { x: 3, y: 1 }), None);
    assert_eq!(g.get(Coordinate { x: 0, y: 2 }), None);
}

#[test]
fn direction_opposite_and_order() {
    assert_eq!(Direction::North.opposite(), Direction::South);
    assert_eq!(Direction::East.opposite(), Direction::West);
    assert_eq!(
        Direction::all(),
        vec![Direction::North, Direction::East, Direction::South, Direction::West]
    );
    assert_eq!(Direction::from_index(Direction::West.index()), Direction::West);
}

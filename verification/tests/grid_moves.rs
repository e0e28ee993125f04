use rs2048::{Direction, Grid, LoadError};

fn rows_of(grid: &Grid) -> Vec<Vec<u8>> {
    let mut rows = Vec::new();
    for r in 0..grid.height() {
        let mut row = Vec::new();
        for c in 0..grid.width() {
            row.push(grid.get(r, c));
        }
        rows.push(row);
    }
    rows
}

fn grid_of(rows: Vec<Vec<u8>>) -> Grid {
    match Grid::from_rows(rows) {
        Ok(grid) => grid,
        Err(error) => panic!("not a grid: {:?}", error),
    }
}

#[test]
fn new_grid_is_blank() {
    let grid = Grid::new(3, 2);
    assert_eq!(grid.width(), 3);
    assert_eq!(grid.height(), 2);
    assert_eq!(rows_of(&grid), vec![vec![0, 0, 0], vec![0, 0, 0]]);
}

#[test]
fn from_rows_keeps_the_cells() {
    let grid = grid_of(vec![vec![1, 2, 3], vec![4, 5, 6]]);
    assert_eq!(grid.width(), 3);
    assert_eq!(grid.height(), 2);
    assert_eq!(rows_of(&grid), vec![vec![1, 2, 3], vec![4, 5, 6]]);
}

#[test]
fn from_rows_rejects_no_rows() {
    assert!(matches!(Grid::from_rows(Vec::new()), Err(LoadError::Empty)));
}

#[test]
fn from_rows_rejects_rows_without_cells() {
    assert!(matches!(Grid::from_rows(vec![Vec::new()]), Err(LoadError::Empty)));
    assert!(matches!(Grid::from_rows(vec![Vec::new(), vec![1]]), Err(LoadError::Empty)));
}

#[test]
fn from_rows_rejects_jagged_rows() {
    assert!(matches!(Grid::from_rows(vec![vec![1, 2], vec![3]]), Err(LoadError::Jagged)));
    assert!(matches!(Grid::from_rows(vec![vec![1], vec![2, 3]]), Err(LoadError::Jagged)));
    assert!(matches!(Grid::from_rows(vec![vec![1, 2], vec![3, 4], Vec::new()]), Err(LoadError::Jagged)));
}

#[test]
fn lines_are_read_from_the_side_of_the_move() {
    let grid = grid_of(vec![vec![1, 2, 3], vec![4, 5, 6]]);
    assert_eq!(grid.line_count(Direction::Left), 2);
    assert_eq!(grid.line_len(Direction::Left), 3);
    assert_eq!(grid.line_count(Direction::Up), 3);
    assert_eq!(grid.line_len(Direction::Up), 2);
    assert_eq!(grid.line(Direction::Left, 1), vec![4, 5, 6]);
    assert_eq!(grid.line(Direction::Right, 1), vec![6, 5, 4]);
    assert_eq!(grid.line(Direction::Up, 2), vec![3, 6]);
    assert_eq!(grid.line(Direction::Down, 2), vec![6, 3]);
    assert_eq!(grid.cell_at(Direction::Left, 1, 2), (1, 2));
    assert_eq!(grid.cell_at(Direction::Right, 1, 2), (1, 0));
    assert_eq!(grid.cell_at(Direction::Up, 2, 1), (1, 2));
    assert_eq!(grid.cell_at(Direction::Down, 2, 1), (0, 2));
}

#[test]
fn set_line_writes_back_in_the_order_of_the_move() {
    let mut grid = grid_of(vec![vec![1, 2, 3], vec![4, 5, 6]]);
    grid.set_line(Direction::Right, 0, &vec![7, 8, 9]);
    assert_eq!(rows_of(&grid), vec![vec![9, 8, 7], vec![4, 5, 6]]);
    grid.set_line(Direction::Down, 1, &vec![10, 11]);
    assert_eq!(rows_of(&grid), vec![vec![9, 11, 7], vec![4, 10, 6]]);
    grid.set_line(Direction::Up, 0, &vec![12, 13]);
    assert_eq!(rows_of(&grid), vec![vec![12, 11, 7], vec![13, 10, 6]]);
    grid.set_line(Direction::Left, 1, &vec![0, 0, 1]);
    assert_eq!(rows_of(&grid), vec![vec![12, 11, 7], vec![0, 0, 1]]);
}

#[test]
fn slide_in_each_direction() {
    let start = vec![vec![0, 1, 0], vec![2, 0, 3], vec![0, 0, 0], vec![0, 4, 0]];

    let mut left = grid_of(start.clone());
    assert!(left.slide(Direction::Left));
    assert_eq!(rows_of(&left), vec![vec![1, 0, 0], vec![2, 3, 0], vec![0, 0, 0], vec![4, 0, 0]]);

    let mut right = grid_of(start.clone());
    assert!(right.slide(Direction::Right));
    assert_eq!(rows_of(&right), vec![vec![0, 0, 1], vec![0, 2, 3], vec![0, 0, 0], vec![0, 0, 4]]);

    let mut up = grid_of(start.clone());
    assert!(up.slide(Direction::Up));
    assert_eq!(rows_of(&up), vec![vec![2, 1, 3], vec![0, 4, 0], vec![0, 0, 0], vec![0, 0, 0]]);

    let mut down = grid_of(start);
    assert!(down.slide(Direction::Down));
    assert_eq!(rows_of(&down), vec![vec![0, 0, 0], vec![0, 0, 0], vec![0, 1, 0], vec![2, 4, 3]]);
}

#[test]
fn slide_reports_no_move_on_a_compact_grid() {
    let mut grid = grid_of(vec![vec![1, 2, 0], vec![3, 0, 0]]);
    assert!(!grid.slide(Direction::Left));
    assert_eq!(rows_of(&grid), vec![vec![1, 2, 0], vec![3, 0, 0]]);
    assert!(!grid.slide(Direction::Up));
    assert!(grid.slide(Direction::Right));
    assert_eq!(rows_of(&grid), vec![vec![0, 1, 2], vec![0, 0, 3]]);
}

#[test]
fn slide_twice_on_a_grid_is_slide_once() {
    for direction in [Direction::Up, Direction::Down, Direction::Left, Direction::Right] {
        let mut grid = grid_of(vec![vec![0, 1, 0, 2], vec![3, 0, 0, 3], vec![0, 0, 5, 0]]);
        grid.slide(direction);
        let once = rows_of(&grid);
        assert!(!grid.slide(direction));
        assert_eq!(rows_of(&grid), once);
    }
}

#[test]
fn slide_keeps_the_tiles_of_each_line() {
    for direction in [Direction::Up, Direction::Down, Direction::Left, Direction::Right] {
        let mut grid = grid_of(vec![vec![0, 1, 0, 2], vec![3, 0, 0, 3], vec![0, 0, 5, 0]]);
        let count = grid.line_count(direction);
        let mut before = Vec::new();
        for k in 0..count {
            let tiles: Vec<u8> = grid.line(direction, k).into_iter().filter(|e| *e != 0).collect();
            before.push(tiles);
        }
        grid.slide(direction);
        for k in 0..count {
            let tiles: Vec<u8> = grid.line(direction, k).into_iter().filter(|e| *e != 0).collect();
            assert_eq!(tiles, before[k]);
        }
    }
}

#[test]
fn merge_starts_at_the_side_of_the_move() {
    let mut left = grid_of(vec![vec![1, 1, 1]]);
    assert!(left.merge(Direction::Left));
    assert_eq!(rows_of(&left), vec![vec![2, 0, 1]]);

    let mut right = grid_of(vec![vec![1, 1, 1]]);
    assert!(right.merge(Direction::Right));
    assert_eq!(rows_of(&right), vec![vec![1, 0, 2]]);

    let mut up = grid_of(vec![vec![1], vec![1], vec![1]]);
    assert!(up.merge(Direction::Up));
    assert_eq!(rows_of(&up), vec![vec![2], vec![0], vec![1]]);

    let mut down = grid_of(vec![vec![1], vec![1], vec![1]]);
    assert!(down.merge(Direction::Down));
    assert_eq!(rows_of(&down), vec![vec![1], vec![0], vec![2]]);
}

#[test]
fn merge_works_on_lines_not_across_them() {
    let mut grid = grid_of(vec![vec![1, 2], vec![1, 2]]);
    assert!(!grid.merge(Direction::Left));
    assert_eq!(rows_of(&grid), vec![vec![1, 2], vec![1, 2]]);
    assert!(grid.merge(Direction::Up));
    assert_eq!(rows_of(&grid), vec![vec![2, 3], vec![0, 0]]);
}

#[test]
fn shift_slides_merges_and_closes_the_gaps() {
    let mut left = grid_of(vec![vec![1, 1, 1, 0], vec![0, 2, 0, 2]]);
    assert!(left.shift(Direction::Left));
    assert_eq!(rows_of(&left), vec![vec![2, 1, 0, 0], vec![3, 0, 0, 0]]);

    let mut right = grid_of(vec![vec![1, 1, 1, 0], vec![0, 2, 0, 2]]);
    assert!(right.shift(Direction::Right));
    assert_eq!(rows_of(&right), vec![vec![0, 0, 1, 2], vec![0, 0, 0, 3]]);

    let mut up = grid_of(vec![vec![1, 0], vec![1, 3], vec![1, 3], vec![2, 4]]);
    assert!(up.shift(Direction::Up));
    assert_eq!(rows_of(&up), vec![vec![2, 4], vec![1, 4], vec![2, 0], vec![0, 0]]);

    let mut down = grid_of(vec![vec![1, 0], vec![1, 3], vec![1, 3], vec![2, 4]]);
    assert!(down.shift(Direction::Down));
    assert_eq!(rows_of(&down), vec![vec![0, 0], vec![1, 0], vec![2, 4], vec![2, 4]]);
}

#[test]
fn shift_merges_each_tile_once() {
    let mut grid = grid_of(vec![vec![1, 1, 2, 0], vec![2, 2, 2, 2]]);
    assert!(grid.shift(Direction::Left));
    assert_eq!(rows_of(&grid), vec![vec![2, 2, 0, 0], vec![3, 3, 0, 0]]);
}

#[test]
fn shift_reports_no_effect() {
    let mut grid = grid_of(vec![vec![1, 2, 0], vec![2, 1, 0]]);
    assert!(!grid.shift(Direction::Left));
    assert_eq!(rows_of(&grid), vec![vec![1, 2, 0], vec![2, 1, 0]]);
    assert!(!grid.shift(Direction::Up));
    assert_eq!(rows_of(&grid), vec![vec![1, 2, 0], vec![2, 1, 0]]);
}

#[test]
fn shift_reports_a_merge_without_a_slide() {
    let mut grid = grid_of(vec![vec![1, 1, 0, 0]]);
    assert!(grid.shift(Direction::Left));
    assert_eq!(rows_of(&grid), vec![vec![2, 0, 0, 0]]);
}

#[test]
fn shift_keeps_an_empty_cell() {
    for direction in [Direction::Up, Direction::Down, Direction::Left, Direction::Right] {
        let mut grid = grid_of(vec![vec![1, 2, 3], vec![4, 0, 6], vec![7, 8, 9]]);
        grid.shift(direction);
        assert_eq!(grid.empty_cells().len(), 1);
    }
}

#[test]
fn shift_raises_no_exponent_by_more_than_one() {
    for direction in [Direction::Up, Direction::Down, Direction::Left, Direction::Right] {
        let mut grid = grid_of(vec![vec![10, 10, 10, 10], vec![10, 10, 10, 10], vec![0, 10, 10, 0]]);
        assert!(grid.all_below(11));
        grid.shift(direction);
        assert!(grid.all_below(12));
        assert!(grid.contains(11));
    }
}

#[test]
fn empty_cells_are_listed_row_by_row() {
    let grid = grid_of(vec![vec![0, 1, 0], vec![2, 0, 3], vec![0, 0, 4]]);
    assert_eq!(grid.empty_cells(), vec![(0, 0), (0, 2), (1, 1), (2, 0), (2, 1)]);
    let full = grid_of(vec![vec![1, 2], vec![3, 4]]);
    assert!(full.empty_cells().is_empty());
}

#[test]
fn contains_and_all_below() {
    let grid = grid_of(vec![vec![0, 1], vec![11, 3]]);
    assert!(grid.contains(11));
    assert!(grid.contains(0));
    assert!(!grid.contains(2));
    assert!(grid.all_below(12));
    assert!(!grid.all_below(11));
    assert!(!grid.all_below(0));
}

#[test]
fn set_and_spawn_at() {
    let mut grid = Grid::new(2, 2);
    grid.set(1, 0, 5);
    assert_eq!(rows_of(&grid), vec![vec![0, 0], vec![5, 0]]);
    assert!(grid.spawn_at(Some((0, 1))));
    assert_eq!(rows_of(&grid), vec![vec![0, 1], vec![5, 0]]);
    assert!(!grid.spawn_at(None));
    assert_eq!(rows_of(&grid), vec![vec![0, 1], vec![5, 0]]);
}

#[test]
fn display_shows_powers_of_two() {
    let grid = grid_of(vec![vec![0, 1, 2], vec![10, 11, 15]]);
    assert_eq!(
        grid.to_display(),
        vec![vec![None, Some(2), Some(4)], vec![Some(1024), Some(2048), Some(32768)]]
    );
}

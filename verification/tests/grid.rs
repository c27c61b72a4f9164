use rust_bomberman::cell::CellType;
use rust_bomberman::coord::Coord;
use rust_bomberman::grid::Grid;

#[test]
fn test_cell_type_returns_wall_out_of_bounds() {
    let tiles = vec![' '; 5 * 5];
    let grid = Grid::new(tiles, 5);

    assert_eq!(grid.cell_type(Coord::from(5, 5)), CellType::Wall);
    assert_eq!(grid.cell_type(Coord::from(10, 0)), CellType::Wall);
    assert_eq!(grid.cell_type(Coord::from(0, 10)), CellType::Wall);
}

#[test]
fn test_cell_type_reads_correct_cell() {
    let mut tiles = vec![' '; 3 * 3];
    tiles[0] = 'W';
    tiles[1] = '.';
    tiles[3] = 'P';
    tiles[4] = 'B';
    let grid = Grid::new(tiles, 3);

    assert_eq!(grid.cell_type(Coord::from(0, 0)), CellType::Wall);
    assert_eq!(grid.cell_type(Coord::from(1, 0)), CellType::Destroyable);
    assert_eq!(grid.cell_type(Coord::from(0, 1)), CellType::Player);
    assert_eq!(grid.cell_type(Coord::from(1, 1)), CellType::Bomb);
    assert_eq!(grid.cell_type(Coord::from(2, 2)), CellType::Empty);
}

#[test]
fn test_cell_index_calculation() {
    let grid = Grid::new(vec![' '; 7 * 7], 7);

    assert_eq!(grid.cell_index(&Coord::from(0, 0)), 0);
    assert_eq!(grid.cell_index(&Coord::from(3, 0)), 3);
    assert_eq!(grid.cell_index(&Coord::from(0, 1)), 7);
    assert_eq!(grid.cell_index(&Coord::from(3, 2)), 2 * 7 + 3);
}

#[test]
fn test_out_of_bounds_detection() {
    let grid = Grid::new(vec![' '; 5 * 5], 5);

    assert_eq!(grid.out_of_bounds(&Coord::from(0, 0)), false);
    assert_eq!(grid.out_of_bounds(&Coord::from(4, 4)), false);
    assert_eq!(grid.out_of_bounds(&Coord::from(2, 2)), false);

    assert_eq!(grid.out_of_bounds(&Coord::from(5, 0)), true);
    assert_eq!(grid.out_of_bounds(&Coord::from(0, 5)), true);
    assert_eq!(grid.out_of_bounds(&Coord::from(5, 5)), true);
}

#[test]
fn test_set_cell_changes_cell_type() {
    let tiles = vec![' '; 5 * 5];
    let mut grid = Grid::new(tiles, 5);

    grid.set_cell(Coord::from(1, 1), CellType::Wall);
    grid.set_cell(Coord::from(2, 2), CellType::Bomb);
    grid.set_cell(Coord::from(3, 3), CellType::Empty);

    assert_eq!(grid.cell_type(Coord::from(1, 1)), CellType::Wall);
    assert_eq!(grid.cell_type(Coord::from(2, 2)), CellType::Bomb);
    assert_eq!(grid.cell_type(Coord::from(3, 3)), CellType::Empty);
}

#[test]
fn test_clear_destructable_only_clears_destroyable() {
    let mut tiles = vec![' '; 5 * 5];
    tiles[0] = '.';
    tiles[1] = 'W';
    tiles[2] = ' ';
    let mut grid = Grid::new(tiles, 5);

    grid.clear_destructable(Coord::from(0, 0));
    grid.clear_destructable(Coord::from(1, 0));
    grid.clear_destructable(Coord::from(2, 0));

    assert_eq!(grid.cell_type(Coord::from(0, 0)), CellType::Empty);
    assert_eq!(grid.cell_type(Coord::from(1, 0)), CellType::Wall, "Wall should not be cleared");
    assert_eq!(grid.cell_type(Coord::from(2, 0)), CellType::Empty, "Empty should remain empty");
}

#[test]
fn test_can_move_to_only_empty_cells() {
    let mut tiles = vec![' '; 5 * 5];
    tiles[0] = ' ';
    tiles[1] = 'W';
    tiles[2] = '.';
    let grid = Grid::new(tiles, 5);

    assert_eq!(grid.can_move_to(Coord::from(0, 0)), true);
    assert_eq!(grid.can_move_to(Coord::from(1, 0)), false);
    assert_eq!(grid.can_move_to(Coord::from(2, 0)), false);
}

#[test]
fn test_can_move_to_out_of_bounds_is_false() {
    let grid = Grid::new(vec![' '; 5 * 5], 5);

    assert_eq!(grid.can_move_to(Coord::from(5, 5)), false);
    assert_eq!(grid.can_move_to(Coord::from(10, 0)), false);
}

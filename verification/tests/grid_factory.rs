use rust_bomberman::coord::Coord;
use rust_bomberman::grid_factory::GridFactory;

#[test]
fn test_prepare_grid_example() {
    let size = 7;

    let grid = GridFactory::new(size, [Coord::from(1, 1), Coord::from(5, 5)].to_vec());

    let expected_char_grid = vec![
        'W', 'W', 'W', 'W', 'W', 'W', 'W',
        'W', ' ', ' ', '.', '.', '.', 'W',
        'W', ' ', 'W', '.', 'W', '.', 'W',
        'W', '.', '.', '.', '.', '.', 'W',
        'W', '.', 'W', '.', 'W', ' ', 'W',
        'W', '.', '.', '.', ' ', ' ', 'W',
        'W', 'W', 'W', 'W', 'W', 'W', 'W',
    ];

    assert_eq!(grid.tiles, expected_char_grid);
}

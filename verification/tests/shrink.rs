use rust_bomberman::coord::Coord;
use rust_bomberman::shrink::calculate_shrink_location;

#[test]
fn test_shrink_location() {
    assert_eq!(calculate_shrink_location(0, 5), Some(Coord::from(1, 1)));
    assert_eq!(calculate_shrink_location(1, 5), Some(Coord::from(2, 1)));
    assert_eq!(calculate_shrink_location(2, 5), Some(Coord::from(3, 1)));
    assert_eq!(calculate_shrink_location(3, 5), Some(Coord::from(3, 2)));
    assert_eq!(calculate_shrink_location(4, 5), Some(Coord::from(3, 3)));
    assert_eq!(calculate_shrink_location(5, 5), Some(Coord::from(2, 3)));
    assert_eq!(calculate_shrink_location(6, 5), Some(Coord::from(1, 3)));
    assert_eq!(calculate_shrink_location(7, 5), Some(Coord::from(1, 2)));
    assert_eq!(calculate_shrink_location(8, 5), Some(Coord::from(2, 2)));

    assert_eq!(calculate_shrink_location(25, 7), None);
}

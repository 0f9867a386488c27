use puzrs::grid::Grid;

#[test]
fn grid_basics() {
    let mut g = Grid::new(2, 3, 7u8);
    assert_eq!(g.height(), 2);
    assert_eq!(g.width(), 3);
    assert!(g.is_valid_coord(1, 2));
    assert!(!g.is_valid_coord(2, 0));
    assert!(!g.is_valid_coord(0, -1));
    g.set(1, 2, 9);
    assert_eq!(g.get(1, 2), 9);
    assert_eq!(g.get(0, 2), 7);
    assert_eq!(g.get(1, 1), 7);
}

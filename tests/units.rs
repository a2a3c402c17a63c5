use sudoku::units::{box_of, peer_of, peers, unit_coord};

#[test]
fn every_cell_has_twenty_peers() {
    for r in 0..9 {
        for c in 0..9 {
            let ps = peers(r, c);
            assert_eq!(ps.len(), 20);
            assert!(!ps.contains(&(r, c)));
        }
    }
}

#[test]
fn peers_of_centre() {
    let ps = peers(4, 4);
    assert!(ps.contains(&(4, 0)));
    assert!(ps.contains(&(0, 4)));
    assert!(ps.contains(&(3, 5)));
    assert!(!ps.contains(&(2, 2)));
    assert!(peer_of(4, 4, 5, 3));
    assert!(!peer_of(4, 4, 6, 6));
}

#[test]
fn box_index_formula() {
    assert_eq!(box_of(0, 0), 0);
    assert_eq!(box_of(4, 7), 5);
    assert_eq!(box_of(8, 3), 7);
    assert_eq!(unit_coord(18 + 5, 4), (4, 7));
    assert_eq!(unit_coord(9 + 2, 6), (6, 2));
}

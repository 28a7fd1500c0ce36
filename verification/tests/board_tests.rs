use tango::board::Tango;
use tango::tiles::{TangoError, TangoRestriction, TangoTile};

#[test]
fn new_valid_dimensions_all_empty() {
    let board = Tango::new(4, 4, vec![]).unwrap();
    for y in 0..4 {
        for x in 0..4 {
            assert_eq!(board.get_tile(x, y), Some(TangoTile::Empty));
        }
    }
    assert_eq!(board.get_tile(4, 0), None);
    assert_eq!(board.get_tile(0, 4), None);
}

#[test]
fn new_rejects_zero_and_odd_dimensions() {
    assert_eq!(Tango::new(0, 4, vec![]).unwrap_err(), TangoError::InvalidDimensions);
    assert_eq!(Tango::new(4, 0, vec![]).unwrap_err(), TangoError::InvalidDimensions);
    assert_eq!(Tango::new(3, 4, vec![]).unwrap_err(), TangoError::InvalidDimensions);
    assert_eq!(Tango::new(4, 3, vec![]).unwrap_err(), TangoError::InvalidDimensions);
    assert_eq!(Tango::new(5, 5, vec![]).unwrap_err(), TangoError::InvalidDimensions);
}

#[test]
fn set_tile_writes_and_clears() {
    let mut board = Tango::new(2, 2, vec![]).unwrap();
    assert!(board.set_tile(0, 0, TangoTile::Red));
    assert_eq!(board.get_tile(0, 0), Some(TangoTile::Red));
    assert!(board.set_tile(0, 0, TangoTile::Empty));
    assert_eq!(board.get_tile(0, 0), Some(TangoTile::Empty));
}

#[test]
fn set_tile_out_of_range_fails_unchanged() {
    let mut board = Tango::new(2, 2, vec![]).unwrap();
    assert!(!board.set_tile(2, 0, TangoTile::Red));
    assert!(!board.set_tile(0, 2, TangoTile::Blue));
    for y in 0..2 {
        for x in 0..2 {
            assert_eq!(board.get_tile(x, y), Some(TangoTile::Empty));
        }
    }
}

#[test]
fn row_triple_rejected_and_grid_unchanged() {
    let mut board = Tango::new(6, 6, vec![]).unwrap();
    assert!(board.set_tile(0, 0, TangoTile::Red));
    assert!(board.set_tile(1, 0, TangoTile::Red));
    assert!(!board.set_tile(2, 0, TangoTile::Red));
    assert_eq!(board.get_tile(0, 0), Some(TangoTile::Red));
    assert_eq!(board.get_tile(1, 0), Some(TangoTile::Red));
    assert_eq!(board.get_tile(2, 0), Some(TangoTile::Empty));
}

#[test]
fn column_triple_rejected_and_grid_unchanged() {
    let mut board = Tango::new(6, 6, vec![]).unwrap();
    assert!(board.set_tile(0, 0, TangoTile::Blue));
    assert!(board.set_tile(0, 1, TangoTile::Blue));
    assert!(!board.set_tile(0, 2, TangoTile::Blue));
    assert_eq!(board.get_tile(0, 2), Some(TangoTile::Empty));
}

#[test]
fn middle_of_run_rejected() {
    let mut board = Tango::new(6, 6, vec![]).unwrap();
    assert!(board.set_tile(0, 0, TangoTile::Red));
    assert!(board.set_tile(2, 0, TangoTile::Red));
    assert!(!board.set_tile(1, 0, TangoTile::Red));
    assert_eq!(board.get_tile(1, 0), Some(TangoTile::Empty));
}

#[test]
fn row_balance_rejected_and_grid_unchanged() {
    let mut board = Tango::new(2, 2, vec![]).unwrap();
    assert!(board.set_tile(0, 0, TangoTile::Red));
    assert!(!board.set_tile(1, 0, TangoTile::Red));
    assert_eq!(board.get_tile(1, 0), Some(TangoTile::Empty));
    assert!(board.set_tile(1, 0, TangoTile::Blue));
}

#[test]
fn column_balance_rejected_and_grid_unchanged() {
    let mut board = Tango::new(4, 4, vec![]).unwrap();
    assert!(board.set_tile(0, 0, TangoTile::Blue));
    assert!(board.set_tile(0, 1, TangoTile::Blue));
    // A third blue anywhere in column 0 would exceed half of its length.
    assert!(!board.set_tile(0, 3, TangoTile::Blue));
    assert_eq!(board.get_tile(0, 3), Some(TangoTile::Empty));
}

#[test]
fn same_restriction_enforced_once_decided() {
    let restrictions = vec![TangoRestriction::Same((0, 0), (1, 0))];
    let mut board = Tango::new(4, 4, restrictions).unwrap();
    // One endpoint still empty: the restriction blocks nothing.
    assert!(board.set_tile(0, 0, TangoTile::Red));
    // Deciding the other endpoint with the opposite color must fail.
    assert!(!board.set_tile(1, 0, TangoTile::Blue));
    assert_eq!(board.get_tile(1, 0), Some(TangoTile::Empty));
    assert!(board.set_tile(1, 0, TangoTile::Red));
}

#[test]
fn different_restriction_enforced_once_decided() {
    let restrictions = vec![TangoRestriction::Different((0, 0), (0, 1))];
    let mut board = Tango::new(4, 4, restrictions).unwrap();
    assert!(board.set_tile(0, 0, TangoTile::Red));
    assert!(!board.set_tile(0, 1, TangoTile::Red));
    assert_eq!(board.get_tile(0, 1), Some(TangoTile::Empty));
    assert!(board.set_tile(0, 1, TangoTile::Blue));
}

#[test]
fn out_of_range_restriction_never_matches() {
    let restrictions = vec![TangoRestriction::Same((9, 9), (0, 0))];
    let mut board = Tango::new(2, 2, restrictions).unwrap();
    assert!(board.set_tile(0, 0, TangoTile::Red));
    assert!(board.set_tile(1, 0, TangoTile::Blue));
}

#[test]
fn get_restriction_matches_unordered_pair() {
    let restrictions = vec![
        TangoRestriction::Same((0, 0), (1, 0)),
        TangoRestriction::Different((1, 1), (1, 2)),
    ];
    let board = Tango::new(4, 4, restrictions).unwrap();
    match board.get_restriction((1, 0), (0, 0)) {
        Some(TangoRestriction::Same(a, b)) => {
            assert_eq!(*a, (0, 0));
            assert_eq!(*b, (1, 0));
        }
        _ => panic!("expected the Same restriction under the swapped pair"),
    }
    match board.get_restriction((1, 1), (1, 2)) {
        Some(TangoRestriction::Different(_, _)) => {}
        _ => panic!("expected the Different restriction"),
    }
    assert!(board.get_restriction((0, 0), (0, 1)).is_none());
}

#[test]
fn validity_checks_out_of_range_lines() {
    let board = Tango::new(4, 4, vec![]).unwrap();
    assert!(board.is_valid_row(0));
    assert!(board.is_valid_column(3));
    assert!(!board.is_valid_row(4));
    assert!(!board.is_valid_column(4));
    assert!(board.check_restrictions());
}

#[test]
fn duplicate_is_independent() {
    let mut board = Tango::new(2, 2, vec![]).unwrap();
    assert!(board.set_tile(0, 0, TangoTile::Red));
    let copy = board.duplicate();
    assert!(board.set_tile(0, 0, TangoTile::Empty));
    assert_eq!(copy.get_tile(0, 0), Some(TangoTile::Red));
    assert_eq!(board.get_tile(0, 0), Some(TangoTile::Empty));
}

#[test]
fn tile_labels() {
    assert_eq!(TangoTile::Empty.label(), "Empty");
    assert_eq!(TangoTile::Red.label(), "Red");
    assert_eq!(TangoTile::Blue.label(), "Blue");
}

use tango::board::Tango;
use tango::solver::RecursiveTangoSolver;
use tango::tiles::{TangoRestriction, TangoTile};

#[test]
fn empty_2x2_has_exactly_two_completions() {
    let board = Tango::new(2, 2, vec![]).unwrap();
    let mut solver = RecursiveTangoSolver::new(board);
    assert_eq!(solver.count_completions(), 2);
    // The board must come back untouched.
    for y in 0..2 {
        for x in 0..2 {
            assert_eq!(solver.tango.get_tile(x, y), Some(TangoTile::Empty));
        }
    }
}

#[test]
fn capped_count_clamps_at_bound() {
    let board = Tango::new(2, 2, vec![]).unwrap();
    let mut solver = RecursiveTangoSolver::new(board);
    assert_eq!(solver.count_completions_up_to(10), 2);
    assert_eq!(solver.count_completions_up_to(2), 2);
    assert_eq!(solver.count_completions_up_to(1), 1);
    assert_eq!(solver.count_completions_up_to(0), 0);
}

#[test]
fn filled_board_counts_one_without_mutation() {
    let mut board = Tango::new(2, 2, vec![]).unwrap();
    assert!(board.set_tile(0, 0, TangoTile::Red));
    assert!(board.set_tile(1, 0, TangoTile::Blue));
    assert!(board.set_tile(0, 1, TangoTile::Blue));
    assert!(board.set_tile(1, 1, TangoTile::Red));
    let mut solver = RecursiveTangoSolver::new(board);
    assert_eq!(solver.count_completions(), 1);
    assert_eq!(solver.tango.get_tile(0, 0), Some(TangoTile::Red));
    assert_eq!(solver.tango.get_tile(1, 0), Some(TangoTile::Blue));
    assert_eq!(solver.tango.get_tile(0, 1), Some(TangoTile::Blue));
    assert_eq!(solver.tango.get_tile(1, 1), Some(TangoTile::Red));
}

#[test]
fn find_one_fills_first_completion_depth_first() {
    let board = Tango::new(2, 2, vec![]).unwrap();
    let mut solver = RecursiveTangoSolver::new(board);
    assert!(solver.find_one());
    // Depth first with Red tried before Blue at each cell.
    assert_eq!(solver.tango.get_tile(0, 0), Some(TangoTile::Red));
    assert_eq!(solver.tango.get_tile(1, 0), Some(TangoTile::Blue));
    assert_eq!(solver.tango.get_tile(0, 1), Some(TangoTile::Blue));
    assert_eq!(solver.tango.get_tile(1, 1), Some(TangoTile::Red));
}

#[test]
fn contradictory_board_has_no_completion() {
    // In a 2-wide row the two cells must differ, so `Same` across them is
    // unsatisfiable.
    let restrictions = vec![TangoRestriction::Same((0, 0), (1, 0))];
    let board = Tango::new(2, 2, restrictions).unwrap();
    let mut solver = RecursiveTangoSolver::new(board);
    assert_eq!(solver.count_completions(), 0);
    assert!(!solver.find_one());
    for y in 0..2 {
        for x in 0..2 {
            assert_eq!(solver.tango.get_tile(x, y), Some(TangoTile::Empty));
        }
    }
}

#[test]
fn solve_dispatches_both_modes() {
    let board = Tango::new(2, 2, vec![]).unwrap();
    let mut counter = RecursiveTangoSolver::new(board.duplicate());
    assert_eq!(counter.solve(true), 2);
    let mut finder = RecursiveTangoSolver::new(board);
    assert_eq!(finder.solve(false), 1);
    assert_eq!(finder.tango.get_tile(0, 0), Some(TangoTile::Red));
}

#[test]
fn solve_recursive_accumulates_in_counter_mode() {
    let mut board = Tango::new(2, 2, vec![]).unwrap();
    assert!(board.set_tile(0, 0, TangoTile::Red));
    assert!(board.set_tile(1, 0, TangoTile::Blue));
    assert!(board.set_tile(0, 1, TangoTile::Blue));
    assert!(board.set_tile(1, 1, TangoTile::Red));
    let mut solver = RecursiveTangoSolver::new(board);
    assert_eq!(solver.solve_recursive(true, 5), 6);
}

#[test]
fn restriction_narrows_search_and_shapes_every_solution() {
    // 4x4 board, all cells empty, one Same restriction between (0,0) and
    // (1,0): the count must drop strictly below the unrestricted count, and
    // the found completion must satisfy the restriction.
    let unrestricted = Tango::new(4, 4, vec![]).unwrap();
    let mut free_solver = RecursiveTangoSolver::new(unrestricted);
    let free_count = free_solver.count_completions();
    assert!(free_count > 0);

    let restrictions = vec![TangoRestriction::Same((0, 0), (1, 0))];
    let restricted = Tango::new(4, 4, restrictions).unwrap();
    let mut solver = RecursiveTangoSolver::new(restricted.duplicate());
    let restricted_count = solver.count_completions();
    assert!(restricted_count < free_count);

    let mut finder = RecursiveTangoSolver::new(restricted);
    assert!(finder.find_one());
    let a = finder.tango.get_tile(0, 0).unwrap();
    let b = finder.tango.get_tile(1, 0).unwrap();
    assert!(a != TangoTile::Empty);
    assert_eq!(a, b);
    // The completion is a full valid filling.
    for y in 0..4 {
        assert!(finder.tango.is_valid_row(y));
        for x in 0..4 {
            assert!(finder.tango.get_tile(x, y).unwrap() != TangoTile::Empty);
        }
    }
    assert!(finder.tango.check_restrictions());
}

use tango::board::Tango;
use tango::generator::TangoGenerator;
use tango::solver::RecursiveTangoSolver;
use tango::tiles::{TangoRestriction, TangoTile};

fn restriction_endpoints(r: &TangoRestriction) -> ((usize, usize), (usize, usize)) {
    match r {
        TangoRestriction::Same(a, b) => (*a, *b),
        TangoRestriction::Different(a, b) => (*a, *b),
    }
}

fn is_adjacent(w: usize, h: usize, p: ((usize, usize), (usize, usize))) -> bool {
    let ((x1, y1), (x2, y2)) = p;
    (x2 == x1 + 1 && y2 == y1 && x2 < w && y1 < h) || (x2 == x1 && y2 == y1 + 1 && x1 < w && y2 < h)
}

#[test]
fn precomputed_pairs_of_a_2x2_board() {
    let generator = TangoGenerator::new(2, 2);
    assert_eq!(
        generator.neighbor_pairs,
        vec![
            ((0, 0), (1, 0)),
            ((0, 1), (1, 1)),
            ((0, 0), (0, 1)),
            ((1, 0), (1, 1)),
        ]
    );
}

#[test]
fn precomputed_pairs_count_of_a_6x6_board() {
    let generator = TangoGenerator::new(6, 6);
    // 5 * 6 horizontal plus 6 * 5 vertical pairs.
    assert_eq!(generator.neighbor_pairs.len(), 60);
    for p in &generator.neighbor_pairs {
        assert!(is_adjacent(6, 6, *p));
    }
}

#[test]
fn generated_candidates_are_valid_with_adjacent_distinct_restrictions() {
    let generator = TangoGenerator::new(4, 4);
    for _ in 0..50 {
        let board: Tango = generator.generate();
        assert!(board.check_restrictions());
        for y in 0..4 {
            assert!(board.is_valid_row(y));
        }
        for x in 0..4 {
            assert!(board.is_valid_column(x));
        }
        let endpoints: Vec<((usize, usize), (usize, usize))> =
            board.restrictions.iter().map(restriction_endpoints).collect();
        for p in &endpoints {
            assert!(is_adjacent(4, 4, *p));
        }
        for i in 0..endpoints.len() {
            for j in 0..i {
                assert_ne!(endpoints[i], endpoints[j]);
            }
        }
    }
}

#[test]
fn generated_puzzles_have_exactly_one_completion() {
    let generator = TangoGenerator::new(2, 2);
    for _ in 0..100 {
        let board = generator.generate_one_solution_board(1_000_000).unwrap();
        let mut solver = RecursiveTangoSolver::new(board.duplicate());
        assert_eq!(solver.count_completions(), 1);
        // The returned artifact is the unsolved candidate with its
        // restriction set, not the completed filling.
        let mut finder = RecursiveTangoSolver::new(board);
        assert!(finder.find_one());
    }
}

#[test]
fn generated_4x4_puzzles_have_exactly_one_completion() {
    let generator = TangoGenerator::new(4, 4);
    for _ in 0..20 {
        let board = generator.generate_one_solution_board(1_000_000).unwrap();
        let mut solver = RecursiveTangoSolver::new(board);
        assert_eq!(solver.count_completions(), 1);
    }
}

#[test]
fn six_by_six_entry_point_yields_a_unique_puzzle() {
    let board = TangoGenerator::generate_one_solution_tango().unwrap();
    let mut solver = RecursiveTangoSolver::new(board);
    assert_eq!(solver.count_completions_up_to(2), 1);
    assert_eq!(solver.tango.grid.width, 6);
    assert_eq!(solver.tango.grid.height, 6);
    let mut empties: usize = 0;
    for y in 0..6 {
        for x in 0..6 {
            if solver.tango.get_tile(x, y) == Some(TangoTile::Empty) {
                empties += 1;
            }
        }
    }
    assert!(empties <= 36);
}

//! Exhaustive backtracking search over a board's empty cells: find the first
//! completion, or count all of them.

use vstd::prelude::*;

use crate::board::{board_valid, col_ok, model_wf, placement_ok, restrictions_ok, row_ok,
    with_tile, BoardModel, Tango};
use crate::counting::{count_color, lemma_count_update, lemma_count_zero};
use crate::grid::lemma_index_bound;
use crate::tiles::TangoTile;

verus! {

/// The number of `Empty` cells of the board.
pub open spec fn num_empty(m: BoardModel) -> nat {
    count_color(m.tiles, TangoTile::Empty)
}

/// The model after writing `t` at row-major index `i`.
pub open spec fn set_at(m: BoardModel, i: int, t: TangoTile) -> BoardModel {
    BoardModel { tiles: m.tiles.update(i, t), ..m }
}

/// The index of the first `Empty` cell at or after `i`, or the length if
/// none follows.
pub open spec fn first_empty_from(s: Seq<TangoTile>, i: int) -> int
    decreases s.len() - i,
{
    if i < 0 || i >= s.len() {
        s.len() as int
    } else if s[i] == TangoTile::Empty {
        i
    } else {
        first_empty_from(s, i + 1)
    }
}

/// The index of the first `Empty` cell, or the length if the board is full.
pub open spec fn first_empty(s: Seq<TangoTile>) -> int {
    first_empty_from(s, 0)
}

proof fn lemma_first_empty_from(s: Seq<TangoTile>, i: int)
    requires
        0 <= i <= s.len(),
    ensures
        i <= first_empty_from(s, i) <= s.len(),
        first_empty_from(s, i) < s.len() ==> s[first_empty_from(s, i)] == TangoTile::Empty,
        forall|j: int| i <= j < first_empty_from(s, i) ==> s[j] != TangoTile::Empty,
    decreases s.len() - i,
{
    if i < s.len() && s[i] != TangoTile::Empty {
        lemma_first_empty_from(s, i + 1);
    }
}

/// What the first-empty scan returns: the least `Empty` index, with the
/// whole board full exactly when it equals the length.
pub proof fn lemma_first_empty(s: Seq<TangoTile>)
    ensures
        0 <= first_empty(s) <= s.len(),
        first_empty(s) < s.len() ==> s[first_empty(s)] == TangoTile::Empty,
        forall|j: int| 0 <= j < first_empty(s) ==> s[j] != TangoTile::Empty,
        (first_empty(s) == s.len()) <==> (count_color(s, TangoTile::Empty) == 0),
{
    lemma_first_empty_from(s, 0);
    lemma_count_zero(s, TangoTile::Empty);
}

/// How many complete valid fillings extend the board, in the order the
/// search walks them: the first empty cell in row-major order is filled
/// with each color in turn, and invalid boards contribute nothing.
pub open spec fn completion_count(m: BoardModel) -> nat
    decreases num_empty(m),
    via lemma_completion_count_decreases
{
    if !model_wf(m) || !board_valid(m) {
        0
    } else if num_empty(m) == 0 {
        1
    } else {
        completion_count(set_at(m, first_empty(m.tiles), TangoTile::Red)) + completion_count(
            set_at(m, first_empty(m.tiles), TangoTile::Blue),
        )
    }
}

#[via_fn]
proof fn lemma_completion_count_decreases(m: BoardModel) {
    if model_wf(m) && board_valid(m) && num_empty(m) != 0 {
        let i = first_empty(m.tiles);
        lemma_first_empty(m.tiles);
        lemma_count_update(m.tiles, TangoTile::Empty, i, TangoTile::Red);
        lemma_count_update(m.tiles, TangoTile::Empty, i, TangoTile::Blue);
    }
}

/// The first complete valid filling the search reaches, depth first with
/// `Red` before `Blue` at each cell, or `None` if the board has no
/// completion.
pub open spec fn first_solution(m: BoardModel) -> Option<Seq<TangoTile>>
    decreases num_empty(m),
    via lemma_first_solution_decreases
{
    if !model_wf(m) || !board_valid(m) {
        None
    } else if num_empty(m) == 0 {
        Some(m.tiles)
    } else {
        if first_solution(set_at(m, first_empty(m.tiles), TangoTile::Red)) is Some {
            first_solution(set_at(m, first_empty(m.tiles), TangoTile::Red))
        } else {
            first_solution(set_at(m, first_empty(m.tiles), TangoTile::Blue))
        }
    }
}

#[via_fn]
proof fn lemma_first_solution_decreases(m: BoardModel) {
    if model_wf(m) && board_valid(m) && num_empty(m) != 0 {
        let i = first_empty(m.tiles);
        lemma_first_empty(m.tiles);
        lemma_count_update(m.tiles, TangoTile::Empty, i, TangoTile::Red);
        lemma_count_update(m.tiles, TangoTile::Empty, i, TangoTile::Blue);
    }
}

/// `m1` agrees with `m0` on every cell that `m0` has already decided.
pub open spec fn extends(m0: BoardModel, m1: BoardModel) -> bool {
    &&& m1.width == m0.width
    &&& m1.height == m0.height
    &&& m1.restrictions == m0.restrictions
    &&& m1.tiles.len() == m0.tiles.len()
    &&& forall|j: int|
        0 <= j < m0.tiles.len() && m0.tiles[j] != TangoTile::Empty ==> m1.tiles[j]
            == #[trigger] m0.tiles[j]
}

/// A board that is already completely and validly filled has exactly one
/// completion: itself.
pub proof fn lemma_filled_board_one_completion(m: BoardModel)
    requires
        model_wf(m),
        board_valid(m),
        num_empty(m) == 0,
    ensures
        completion_count(m) == 1,
        first_solution(m) == Some(m.tiles),
{
}

/// The two search modes agree: a board has at least one completion exactly
/// when the depth-first search finds one.
pub proof fn lemma_count_and_first_solution_agree(m: BoardModel)
    ensures
        (completion_count(m) > 0) <==> (first_solution(m) is Some),
    decreases num_empty(m),
{
    if model_wf(m) && board_valid(m) && num_empty(m) != 0 {
        let i = first_empty(m.tiles);
        lemma_first_empty(m.tiles);
        lemma_count_update(m.tiles, TangoTile::Empty, i, TangoTile::Red);
        lemma_count_update(m.tiles, TangoTile::Empty, i, TangoTile::Blue);
        lemma_count_and_first_solution_agree(set_at(m, i, TangoTile::Red));
        lemma_count_and_first_solution_agree(set_at(m, i, TangoTile::Blue));
    }
}

/// Depth-first search over one owned board.
pub struct RecursiveTangoSolver {
    pub tango: Tango,
}

impl RecursiveTangoSolver {
    pub open spec fn wf(&self) -> bool {
        self.tango.wf()
    }

    /// Takes ownership of the board the search will run on.
    pub fn new(tango: Tango) -> (s: RecursiveTangoSolver)
        ensures
            s.tango@ == tango@,
    {
        RecursiveTangoSolver { tango }
    }

    /// The first `Empty` cell in row-major order, as `(x, y)`.
    fn find_first_empty(&self) -> (r: Option<(usize, usize)>)
        requires
            self.wf(),
        ensures
            (r matches Some(p) ==> p.0 < self.tango@.width && p.1 < self.tango@.height && p.1
                * self.tango@.width + p.0 == first_empty(self.tango@.tiles)),
            (r is None <==> num_empty(self.tango@) == 0),
    {
        let ghost m = self.tango@;
        let w = self.tango.grid.width;
        let h = self.tango.grid.height;
        proof {
            lemma_first_empty(m.tiles);
        }
        let mut y: usize = 0;
        while y < h
            invariant
                self.wf(),
                m == self.tango@,
                w == m.width,
                h == m.height,
                y <= h,
                forall|j: int| 0 <= j < y * w ==> m.tiles[j] != TangoTile::Empty,
            decreases h - y,
        {
            let mut x: usize = 0;
            while x < w
                invariant
                    self.wf(),
                    m == self.tango@,
                    w == m.width,
                    h == m.height,
                    y < h,
                    x <= w,
                    forall|j: int| 0 <= j < y * w + x ==> m.tiles[j] != TangoTile::Empty,
                decreases w - x,
            {
                proof {
                    lemma_index_bound(x as int, y as int, w as int, h as int);
                }
                let t = self.tango.get_tile(x, y).unwrap();
                if t == TangoTile::Empty {
                    proof {
                        lemma_first_empty(m.tiles);
                        let i = y as int * w + x as int;
                        assert(m.tiles[i] == TangoTile::Empty);
                        let fe = first_empty(m.tiles);
                        if fe < i {
                            assert(m.tiles[fe] != TangoTile::Empty);
                        }
                        if fe > i {
                            assert(m.tiles[i] != TangoTile::Empty);
                        }
                        lemma_count_zero(m.tiles, TangoTile::Empty);
                    }
                    return Some((x, y));
                }
                proof {
                    assert(m.tiles[y as int * w + x as int] != TangoTile::Empty);
                }
                x = x + 1;
            }
            proof {
                assert((y + 1) * w == y * w + w) by (nonlinear_arith);
            }
            y = y + 1;
        }
        proof {
            assert(h * w == w * h) by (nonlinear_arith);
            assert(forall|j: int| 0 <= j < m.tiles.len() ==> m.tiles[j] != TangoTile::Empty);
            lemma_count_zero(m.tiles, TangoTile::Empty);
            lemma_first_empty(m.tiles);
        }
        None
    }

    /// One step of the backtracking search, resuming the row-major scan for
    /// the first empty cell.
    ///
    /// With `counter_mode` the whole tree is explored and `acc` plus the
    /// number of completions comes back, the board unchanged. Without it the
    /// search stops at the first completion, leaves it on the board and
    /// returns 1; if no completion exists it returns `acc` (zero) with the
    /// board unchanged.
    pub fn solve_recursive(&mut self, counter_mode: bool, acc: usize) -> (r: usize)
        requires
            old(self).wf(),
            board_valid(old(self).tango@),
            counter_mode ==> acc + completion_count(old(self).tango@) <= usize::MAX,
            !counter_mode ==> acc == 0,
        ensures
            final(self).wf(),
            board_valid(final(self).tango@),
            counter_mode ==> r == acc + completion_count(old(self).tango@) && final(self).tango@
                == old(self).tango@,
            (!counter_mode && first_solution(old(self).tango@) is Some) ==> (r == 1 && final(self).tango@ == (BoardModel {
                tiles: first_solution(old(self).tango@).unwrap(),
                ..old(self).tango@
            }) && num_empty(final(self).tango@) == 0 && extends(
                old(self).tango@,
                final(self).tango@,
            )),
            (!counter_mode && first_solution(old(self).tango@) is None) ==> (r == 0 && final(self).tango@ == old(self).tango@),
        decreases num_empty(old(self).tango@),
    {
        let ghost m0 = self.tango@;
        match self.find_first_empty() {
            None => {
                proof {
                    lemma_filled_board_one_completion(m0);
                }
                acc + 1
            },
            Some(p) => {
                let x = p.0;
                let y = p.1;
                let ghost i = first_empty(m0.tiles);
                let ghost mr = set_at(m0, i, TangoTile::Red);
                let ghost mb = set_at(m0, i, TangoTile::Blue);
                proof {
                    lemma_first_empty(m0.tiles);
                    lemma_count_update(m0.tiles, TangoTile::Empty, i, TangoTile::Red);
                    lemma_count_update(m0.tiles, TangoTile::Empty, i, TangoTile::Blue);
                    assert(completion_count(m0) == completion_count(mr) + completion_count(mb));
                    assert(with_tile(m0, x as int, y as int, TangoTile::Red) =~= mr);
                    assert(with_tile(m0, x as int, y as int, TangoTile::Blue) =~= mb);
                }
                let mut acc2 = acc;
                if self.tango.set_tile(x, y, TangoTile::Red) {
                    let result = self.solve_recursive(counter_mode, acc2);
                    if result > 0 {
                        if !counter_mode {
                            proof {
                                assert(first_solution(mr) is Some);
                                assert(first_solution(m0) == first_solution(mr));
                                assert(extends(mr, self.tango@));
                                assert forall|j: int|
                                    0 <= j < m0.tiles.len() && m0.tiles[j] != TangoTile::Empty
                                        implies self.tango@.tiles[j] == #[trigger] m0.tiles[j] by {
                                    assert(j != i);
                                    assert(mr.tiles[j] == m0.tiles[j]);
                                }
                                assert((BoardModel {
                                    tiles: first_solution(m0).unwrap(),
                                    ..m0
                                }) =~= (BoardModel { tiles: first_solution(mr).unwrap(), ..mr }));
                            }
                            return result;
                        }
                        acc2 = result;
                    }
                } else {
                    proof {
                        assert(!board_valid(mr)) by {
                            if board_valid(mr) {
                                assert(row_ok(mr, y as int));
                                assert(col_ok(mr, x as int));
                                assert(restrictions_ok(mr));
                                assert(placement_ok(m0, x as int, y as int, TangoTile::Red));
                            }
                        }
                    }
                }
                proof {
                    assert(counter_mode ==> acc2 == acc + completion_count(mr));
                    assert(!counter_mode ==> acc2 == 0 && first_solution(mr) is None);
                }
                let ghost cur = self.tango@;
                let _reset_red = self.tango.set_tile(x, y, TangoTile::Empty);
                proof {
                    assert(with_tile(cur, x as int, y as int, TangoTile::Empty).tiles
                        =~= m0.tiles);
                    assert(with_tile(cur, x as int, y as int, TangoTile::Empty) =~= m0);
                    assert(row_ok(m0, y as int));
                    assert(col_ok(m0, x as int));
                    assert(placement_ok(cur, x as int, y as int, TangoTile::Empty));
                    assert(self.tango@ == m0);
                }
                if self.tango.set_tile(x, y, TangoTile::Blue) {
                    let result = self.solve_recursive(counter_mode, acc2);
                    if result > 0 {
                        if !counter_mode {
                            proof {
                                assert(first_solution(mb) is Some);
                                assert(first_solution(m0) == first_solution(mb));
                                assert(extends(mb, self.tango@));
                                assert forall|j: int|
                                    0 <= j < m0.tiles.len() && m0.tiles[j] != TangoTile::Empty
                                        implies self.tango@.tiles[j] == #[trigger] m0.tiles[j] by {
                                    assert(j != i);
                                    assert(mb.tiles[j] == m0.tiles[j]);
                                }
                                assert((BoardModel {
                                    tiles: first_solution(m0).unwrap(),
                                    ..m0
                                }) =~= (BoardModel { tiles: first_solution(mb).unwrap(), ..mb }));
                            }
                            return result;
                        }
                        acc2 = result;
                    }
                } else {
                    proof {
                        assert(!board_valid(mb)) by {
                            if board_valid(mb) {
                                assert(row_ok(mb, y as int));
                                assert(col_ok(mb, x as int));
                                assert(restrictions_ok(mb));
                                assert(placement_ok(m0, x as int, y as int, TangoTile::Blue));
                            }
                        }
                    }
                }
                proof {
                    assert(counter_mode ==> acc2 == acc + completion_count(mr)
                        + completion_count(mb));
                    assert(!counter_mode ==> acc2 == 0 && first_solution(mb) is None);
                }
                let ghost cur2 = self.tango@;
                let _reset_blue = self.tango.set_tile(x, y, TangoTile::Empty);
                proof {
                    assert(with_tile(cur2, x as int, y as int, TangoTile::Empty).tiles
                        =~= m0.tiles);
                    assert(with_tile(cur2, x as int, y as int, TangoTile::Empty) =~= m0);
                    assert(row_ok(m0, y as int));
                    assert(col_ok(m0, x as int));
                    assert(placement_ok(cur2, x as int, y as int, TangoTile::Empty));
                    assert(self.tango@ == m0);
                }
                acc2
            },
        }
    }

    /// Single entry point of the search: `counter_mode` selects between counting
    /// every completion and finding the first one.
    pub fn solve(&mut self, counter_mode: bool) -> (r: usize)
        requires
            old(self).wf(),
            board_valid(old(self).tango@),
            counter_mode ==> completion_count(old(self).tango@) <= usize::MAX,
        ensures
            final(self).wf(),
            board_valid(final(self).tango@),
            counter_mode ==> r == completion_count(old(self).tango@) && final(self).tango@ == old(
                self,
            ).tango@,
            (!counter_mode && first_solution(old(self).tango@) is Some) ==> (r == 1 && final(self).tango@ == (BoardModel {
                tiles: first_solution(old(self).tango@).unwrap(),
                ..old(self).tango@
            }) && num_empty(final(self).tango@) == 0 && extends(
                old(self).tango@,
                final(self).tango@,
            )),
            (!counter_mode && first_solution(old(self).tango@) is None) ==> (r == 0 && final(self).tango@ == old(self).tango@),
    {
        self.solve_recursive(counter_mode, 0)
    }

    /// Counts every completion of the current board; the board comes back
    /// unchanged.
    pub fn count_completions(&mut self) -> (r: usize)
        requires
            old(self).wf(),
            board_valid(old(self).tango@),
            completion_count(old(self).tango@) <= usize::MAX,
        ensures
            final(self).wf(),
            r == completion_count(old(self).tango@),
            final(self).tango@ == old(self).tango@,
    {
        self.solve(true)
    }

    /// Fills the board with its first completion when one exists; otherwise
    /// reports `false` and leaves the board unchanged.
    pub fn find_one(&mut self) -> (r: bool)
        requires
            old(self).wf(),
            board_valid(old(self).tango@),
        ensures
            final(self).wf(),
            board_valid(final(self).tango@),
            (r <==> first_solution(old(self).tango@) is Some),
            r ==> final(self).tango@ == (BoardModel {
                tiles: first_solution(old(self).tango@).unwrap(),
                ..old(self).tango@
            }) && num_empty(final(self).tango@) == 0 && extends(
                old(self).tango@,
                final(self).tango@,
            ),
            !r ==> final(self).tango@ == old(self).tango@,
    {
        let n = self.solve(false);
        n > 0
    }

    /// Counts completions like `count_completions`, but clamps the running
    /// total at `bound` and stops exploring once it is reached; no caller
    /// that only distinguishes "zero, one, or more" needs the exact count.
    pub fn count_completions_up_to(&mut self, bound: usize) -> (r: usize)
        requires
            old(self).wf(),
            board_valid(old(self).tango@),
        ensures
            final(self).wf(),
            final(self).tango@ == old(self).tango@,
            r == (if completion_count(old(self).tango@) <= bound {
                completion_count(old(self).tango@) as int
            } else {
                bound as int
            }),
    {
        self.count_capped(bound, 0)
    }

    /// The clamped counting step shared with `count_capped`.
    fn count_capped(&mut self, bound: usize, acc: usize) -> (r: usize)
        requires
            old(self).wf(),
            board_valid(old(self).tango@),
            acc <= bound,
        ensures
            final(self).wf(),
            board_valid(final(self).tango@),
            final(self).tango@ == old(self).tango@,
            r == (if acc + completion_count(old(self).tango@) <= bound {
                acc + completion_count(old(self).tango@)
            } else {
                bound as int
            }),
        decreases num_empty(old(self).tango@),
    {
        let ghost m0 = self.tango@;
        match self.find_first_empty() {
            None => {
                proof {
                    lemma_filled_board_one_completion(m0);
                }
                if acc < bound {
                    acc + 1
                } else {
                    bound
                }
            },
            Some(p) => {
                let x = p.0;
                let y = p.1;
                let ghost i = first_empty(m0.tiles);
                let ghost mr = set_at(m0, i, TangoTile::Red);
                let ghost mb = set_at(m0, i, TangoTile::Blue);
                proof {
                    lemma_first_empty(m0.tiles);
                    lemma_count_update(m0.tiles, TangoTile::Empty, i, TangoTile::Red);
                    lemma_count_update(m0.tiles, TangoTile::Empty, i, TangoTile::Blue);
                    assert(completion_count(m0) == completion_count(mr) + completion_count(mb));
                    assert(with_tile(m0, x as int, y as int, TangoTile::Red) =~= mr);
                    assert(with_tile(m0, x as int, y as int, TangoTile::Blue) =~= mb);
                }
                let mut acc2 = acc;
                if self.tango.set_tile(x, y, TangoTile::Red) {
                    acc2 = self.count_capped(bound, acc2);
                } else {
                    proof {
                        assert(!board_valid(mr)) by {
                            if board_valid(mr) {
                                assert(row_ok(mr, y as int));
                                assert(col_ok(mr, x as int));
                                assert(restrictions_ok(mr));
                                assert(placement_ok(m0, x as int, y as int, TangoTile::Red));
                            }
                        }
                    }
                }
                let ghost cur = self.tango@;
                let _reset_red = self.tango.set_tile(x, y, TangoTile::Empty);
                proof {
                    assert(with_tile(cur, x as int, y as int, TangoTile::Empty).tiles
                        =~= m0.tiles);
                    assert(with_tile(cur, x as int, y as int, TangoTile::Empty) =~= m0);
                    assert(row_ok(m0, y as int));
                    assert(col_ok(m0, x as int));
                    assert(placement_ok(cur, x as int, y as int, TangoTile::Empty));
                    assert(self.tango@ == m0);
                }
                if acc2 == bound {
                    return bound;
                }
                if self.tango.set_tile(x, y, TangoTile::Blue) {
                    acc2 = self.count_capped(bound, acc2);
                } else {
                    proof {
                        assert(!board_valid(mb)) by {
                            if board_valid(mb) {
                                assert(row_ok(mb, y as int));
                                assert(col_ok(mb, x as int));
                                assert(restrictions_ok(mb));
                                assert(placement_ok(m0, x as int, y as int, TangoTile::Blue));
                            }
                        }
                    }
                }
                let ghost cur2 = self.tango@;
                let _reset_blue = self.tango.set_tile(x, y, TangoTile::Empty);
                proof {
                    assert(with_tile(cur2, x as int, y as int, TangoTile::Empty).tiles
                        =~= m0.tiles);
                    assert(with_tile(cur2, x as int, y as int, TangoTile::Empty) =~= m0);
                    assert(row_ok(m0, y as int));
                    assert(col_ok(m0, x as int));
                    assert(placement_ok(cur2, x as int, y as int, TangoTile::Empty));
                    assert(self.tango@ == m0);
                }
                acc2
            },
        }
    }
}


} // verus!

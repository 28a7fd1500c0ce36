//! The puzzle board: a grid plus its restrictions, with a mutation API that
//! keeps every externally observable state valid.

use vstd::prelude::*;

use crate::counting::{
    count_color, lemma_count_bound, lemma_count_take_all, lemma_count_take_succ, lemma_count_zero,
};
use crate::grid::{lemma_index_bound, lemma_index_injective, Grid};
use crate::tiles::{endpoints, restriction_matches_pair, TangoError, TangoRestriction, TangoTile};

verus! {

/// The mathematical value of a board: its dimensions, its tiles as one
/// row-major sequence, and its restrictions.
#[verifier::ext_equal]
pub struct BoardModel {
    pub width: nat,
    pub height: nat,
    pub tiles: Seq<TangoTile>,
    pub restrictions: Seq<TangoRestriction>,
}

/// The structural invariant of a board: positive even dimensions and a tile
/// sequence of exactly `width * height` cells.
pub open spec fn model_wf(m: BoardModel) -> bool {
    &&& m.tiles.len() == m.width * m.height
    &&& 0 < m.width
    &&& 0 < m.height
    &&& m.width % 2 == 0
    &&& m.height % 2 == 0
}

pub open spec fn in_bounds(m: BoardModel, x: int, y: int) -> bool {
    0 <= x < m.width && 0 <= y < m.height
}

/// The tile at `(x, y)`; meaningful only in bounds.
pub open spec fn tile_at(m: BoardModel, x: int, y: int) -> TangoTile {
    m.tiles[y * m.width + x]
}

/// Row `y` as a sequence, left to right.
pub open spec fn row_seq(m: BoardModel, y: int) -> Seq<TangoTile> {
    Seq::new(m.width, |x: int| tile_at(m, x, y))
}

/// Column `x` as a sequence, top to bottom.
pub open spec fn col_seq(m: BoardModel, x: int) -> Seq<TangoTile> {
    Seq::new(m.height, |y: int| tile_at(m, x, y))
}

/// Three equal non-empty tiles stand at `i`, `i + 1`, `i + 2`.
pub open spec fn triple_at(s: Seq<TangoTile>, i: int) -> bool {
    s[i] != TangoTile::Empty && s[i + 1] == s[i] && s[i + 2] == s[i]
}

/// Somewhere in `s` a non-empty value repeats three times in a row.
pub open spec fn has_triple(s: Seq<TangoTile>) -> bool {
    exists|i: int| 0 <= i && i + 2 < s.len() && triple_at(s, i)
}

/// The run rule and the balance cap `half`, for one row or column.
pub open spec fn line_ok(s: Seq<TangoTile>, half: int) -> bool {
    &&& !has_triple(s)
    &&& count_color(s, TangoTile::Red) <= half
    &&& count_color(s, TangoTile::Blue) <= half
}

pub open spec fn row_ok(m: BoardModel, y: int) -> bool {
    line_ok(row_seq(m, y), m.width as int / 2)
}

pub open spec fn col_ok(m: BoardModel, x: int) -> bool {
    line_ok(col_seq(m, x), m.height as int / 2)
}

/// The coordinate holds a color (it is in bounds and not `Empty`).
pub open spec fn decided(m: BoardModel, p: (usize, usize)) -> bool {
    in_bounds(m, p.0 as int, p.1 as int) && tile_at(m, p.0 as int, p.1 as int) != TangoTile::Empty
}

/// A restriction constrains the board only once both endpoints are decided.
pub open spec fn restriction_ok(m: BoardModel, r: TangoRestriction) -> bool {
    match r {
        TangoRestriction::Same(p1, p2) => decided(m, p1) && decided(m, p2) ==> tile_at(
            m,
            p1.0 as int,
            p1.1 as int,
        ) == tile_at(m, p2.0 as int, p2.1 as int),
        TangoRestriction::Different(p1, p2) => decided(m, p1) && decided(m, p2) ==> tile_at(
            m,
            p1.0 as int,
            p1.1 as int,
        ) != tile_at(m, p2.0 as int, p2.1 as int),
    }
}

pub open spec fn restrictions_ok(m: BoardModel) -> bool {
    forall|i: int|
        0 <= i < m.restrictions.len() ==> restriction_ok(m, #[trigger] m.restrictions[i])
}

/// Every row, every column and every restriction passes.
pub open spec fn board_valid(m: BoardModel) -> bool {
    &&& forall|y: int| 0 <= y < m.height ==> #[trigger] row_ok(m, y)
    &&& forall|x: int| 0 <= x < m.width ==> #[trigger] col_ok(m, x)
    &&& restrictions_ok(m)
}

/// The model after writing `t` at `(x, y)`.
pub open spec fn with_tile(m: BoardModel, x: int, y: int, t: TangoTile) -> BoardModel {
    BoardModel { tiles: m.tiles.update(y * m.width + x, t), ..m }
}

/// The checks a single-cell write must pass to be committed: the coordinate
/// is in range and the affected row, the affected column and all
/// restrictions still hold afterwards.
pub open spec fn placement_ok(m: BoardModel, x: int, y: int, t: TangoTile) -> bool {
    &&& in_bounds(m, x, y)
    &&& row_ok(with_tile(m, x, y, t), y)
    &&& col_ok(with_tile(m, x, y, t), x)
    &&& restrictions_ok(with_tile(m, x, y, t))
}

/// Writing one cell changes only its own row and its own column; those two
/// change exactly by an update at the written position.
pub proof fn lemma_with_tile_locality(m: BoardModel, x: int, y: int, t: TangoTile)
    requires
        model_wf(m),
        in_bounds(m, x, y),
    ensures
        model_wf(with_tile(m, x, y, t)),
        forall|y2: int|
            0 <= y2 < m.height && y2 != y ==> #[trigger] row_seq(with_tile(m, x, y, t), y2)
                == row_seq(m, y2),
        forall|x2: int|
            0 <= x2 < m.width && x2 != x ==> #[trigger] col_seq(with_tile(m, x, y, t), x2)
                == col_seq(m, x2),
        row_seq(with_tile(m, x, y, t), y) == row_seq(m, y).update(x, t),
        col_seq(with_tile(m, x, y, t), x) == col_seq(m, x).update(y, t),
{
    let mm = with_tile(m, x, y, t);
    let w = m.width as int;
    let h = m.height as int;
    lemma_index_bound(x, y, w, h);
    assert forall|y2: int| 0 <= y2 < m.height && y2 != y implies #[trigger] row_seq(mm, y2)
        == row_seq(m, y2) by {
        assert forall|x2: int| 0 <= x2 < w implies row_seq(mm, y2)[x2] == row_seq(m, y2)[x2] by {
            lemma_index_bound(x2, y2, w, h);
            lemma_index_injective(x2, y2, x, y, w);
        }
        assert(row_seq(mm, y2) =~= row_seq(m, y2));
    }
    assert forall|x2: int| 0 <= x2 < m.width && x2 != x implies #[trigger] col_seq(mm, x2)
        == col_seq(m, x2) by {
        assert forall|y2: int| 0 <= y2 < h implies col_seq(mm, x2)[y2] == col_seq(m, x2)[y2] by {
            lemma_index_bound(x2, y2, w, h);
            lemma_index_injective(x2, y2, x, y, w);
        }
        assert(col_seq(mm, x2) =~= col_seq(m, x2));
    }
    let ru = row_seq(m, y).update(x, t);
    assert forall|x2: int| 0 <= x2 < w implies row_seq(mm, y)[x2] == ru[x2] by {
        lemma_index_bound(x2, y, w, h);
        if x2 != x {
            lemma_index_injective(x2, y, x, y, w);
        }
    }
    assert(row_seq(mm, y) =~= row_seq(m, y).update(x, t));
    let cu = col_seq(m, x).update(y, t);
    assert forall|y2: int| 0 <= y2 < h implies col_seq(mm, x)[y2] == cu[y2] by {
        lemma_index_bound(x, y2, w, h);
        if y2 != y {
            lemma_index_injective(x, y2, x, y, w);
        }
    }
    assert(col_seq(mm, x) =~= col_seq(m, x).update(y, t));
}

/// A committed write on a valid board leaves the whole board valid.
pub proof fn lemma_placement_preserves_valid(m: BoardModel, x: int, y: int, t: TangoTile)
    requires
        model_wf(m),
        board_valid(m),
        placement_ok(m, x, y, t),
    ensures
        board_valid(with_tile(m, x, y, t)),
{
    let mm = with_tile(m, x, y, t);
    lemma_with_tile_locality(m, x, y, t);
    assert forall|y2: int| 0 <= y2 < mm.height implies #[trigger] row_ok(mm, y2) by {
        if y2 != y {
            assert(row_seq(mm, y2) == row_seq(m, y2));
            assert(row_ok(m, y2));
        }
    }
    assert forall|x2: int| 0 <= x2 < mm.width implies #[trigger] col_ok(mm, x2) by {
        if x2 != x {
            assert(col_seq(mm, x2) == col_seq(m, x2));
            assert(col_ok(m, x2));
        }
    }
}

/// A board whose cells are all `Empty` is valid.
pub proof fn lemma_empty_board_valid(m: BoardModel)
    requires
        model_wf(m),
        forall|i: int| 0 <= i < m.tiles.len() ==> m.tiles[i] == TangoTile::Empty,
    ensures
        board_valid(m),
{
    let w = m.width as int;
    let h = m.height as int;
    assert forall|y: int| 0 <= y < m.height implies #[trigger] row_ok(m, y) by {
        let s = row_seq(m, y);
        assert forall|x: int| 0 <= x < s.len() implies s[x] == TangoTile::Empty by {
            lemma_index_bound(x, y, w, h);
        }
        lemma_count_zero(s, TangoTile::Red);
        lemma_count_zero(s, TangoTile::Blue);
        assert(!has_triple(s));
    }
    assert forall|x: int| 0 <= x < m.width implies #[trigger] col_ok(m, x) by {
        let s = col_seq(m, x);
        assert forall|y: int| 0 <= y < s.len() implies s[y] == TangoTile::Empty by {
            lemma_index_bound(x, y, w, h);
        }
        lemma_count_zero(s, TangoTile::Red);
        lemma_count_zero(s, TangoTile::Blue);
        assert(!has_triple(s));
    }
    assert forall|i: int| 0 <= i < m.restrictions.len() implies restriction_ok(
        m,
        #[trigger] m.restrictions[i],
    ) by {
        match m.restrictions[i] {
            TangoRestriction::Same(p1, p2) => {
                if in_bounds(m, p1.0 as int, p1.1 as int) {
                    lemma_index_bound(p1.0 as int, p1.1 as int, w, h);
                }
            },
            TangoRestriction::Different(p1, p2) => {
                if in_bounds(m, p1.0 as int, p1.1 as int) {
                    lemma_index_bound(p1.0 as int, p1.1 as int, w, h);
                }
            },
        }
    }
}

/// A write that would create a run of three or more equal colors in the
/// affected row or column is never committed; `set_tile` then leaves the
/// grid unchanged.
pub proof fn lemma_triple_rejected(m: BoardModel, x: int, y: int, t: TangoTile)
    requires
        has_triple(row_seq(with_tile(m, x, y, t), y)) || has_triple(col_seq(with_tile(m, x, y, t), x)),
    ensures
        !placement_ok(m, x, y, t),
{
}

/// A write that would push a color's count past half of the affected row
/// or column is never committed; `set_tile` then leaves the grid unchanged.
pub proof fn lemma_overfull_rejected(m: BoardModel, x: int, y: int, t: TangoTile, c: TangoTile)
    requires
        count_color(row_seq(with_tile(m, x, y, t), y), c) > m.width as int / 2 || count_color(
            col_seq(with_tile(m, x, y, t), x),
            c,
        ) > m.height as int / 2,
        c == TangoTile::Red || c == TangoTile::Blue,
    ensures
        !placement_ok(m, x, y, t),
{
}

/// A write that would violate a restriction whose endpoints are then both
/// decided is never committed; `set_tile` then leaves the grid unchanged.
pub proof fn lemma_restriction_violation_rejected(m: BoardModel, x: int, y: int, t: TangoTile, i: int)
    requires
        0 <= i < m.restrictions.len(),
        !restriction_ok(with_tile(m, x, y, t), m.restrictions[i]),
    ensures
        !placement_ok(m, x, y, t),
{
    if placement_ok(m, x, y, t) {
        assert(restriction_ok(with_tile(m, x, y, t), with_tile(m, x, y, t).restrictions[i]));
    }
}

/// A restriction with an `Empty` or out-of-range endpoint imposes no
/// constraint yet: it can never be what makes a write fail.
pub proof fn lemma_undecided_restriction_free(m: BoardModel, r: TangoRestriction)
    requires
        !decided(m, endpoints(r).0) || !decided(m, endpoints(r).1),
    ensures
        restriction_ok(m, r),
{
}

/// A puzzle board: one grid of tiles plus a fixed list of restrictions.
#[derive(Debug)]
pub struct Tango {
    pub grid: Grid,
    pub restrictions: Vec<TangoRestriction>,
}

impl View for Tango {
    type V = BoardModel;

    open spec fn view(&self) -> BoardModel {
        BoardModel {
            width: self.grid.width as nat,
            height: self.grid.height as nat,
            tiles: self.grid.tiles@,
            restrictions: self.restrictions@,
        }
    }
}

impl Tango {
    pub open spec fn wf(&self) -> bool {
        model_wf(self@)
    }

    /// Builds an all-empty board with the given restrictions.
    ///
    /// Fails with `InvalidDimensions` exactly when a dimension is zero or
    /// odd. Restrictions are stored as given; one with an out-of-range
    /// endpoint never constrains any cell.
    pub fn new(width: usize, height: usize, restrictions: Vec<TangoRestriction>) -> (r: Result<
        Tango,
        TangoError,
    >)
        requires
            width * height <= usize::MAX,
        ensures
            (r is Ok <==> (0 < width && 0 < height && width % 2 == 0 && height % 2 == 0)),
            (r matches Ok(b) ==> b.wf() && board_valid(b@) && b@.width == width && b@.height
                == height && b@.restrictions == restrictions@ && b@.tiles.len() == width * height
                && (forall|i: int| 0 <= i < b@.tiles.len() ==> b@.tiles[i] == TangoTile::Empty)),
            (r matches Err(e) ==> e == TangoError::InvalidDimensions),
    {
        if width == 0 || height == 0 {
            return Err(TangoError::InvalidDimensions);
        }
        if width % 2 != 0 || height % 2 != 0 {
            return Err(TangoError::InvalidDimensions);
        }
        let t = Tango { grid: Grid::new(width, height), restrictions };
        proof {
            lemma_empty_board_valid(t@);
        }
        Ok(t)
    }

    /// The current tile at `(x, y)`, or `None` out of range.
    pub fn get_tile(&self, x: usize, y: usize) -> (r: Option<TangoTile>)
        requires
            self.wf(),
        ensures
            r == (if in_bounds(self@, x as int, y as int) {
                Some(tile_at(self@, x as int, y as int))
            } else {
                None::<TangoTile>
            }),
    {
        match self.grid.get(x, y) {
            Some(t) => Some(*t),
            None => None,
        }
    }

    /// Checks the run and balance rules for row `y`; `false` for an
    /// out-of-range row.
    pub fn is_valid_row(&self, y: usize) -> (r: bool)
        requires
            self.wf(),
        ensures
            r == (y < self@.height && row_ok(self@, y as int)),
    {
        if y >= self.grid.height {
            return false;
        }
        let ghost s = row_seq(self@, y as int);
        let w = self.grid.width;
        let mut last_tile = TangoTile::Empty;
        let mut consecutive: usize = 0;
        let mut red_count: usize = 0;
        let mut blue_count: usize = 0;
        let mut x: usize = 0;
        while x < w
            invariant
                self.wf(),
                y < self@.height,
                w == self@.width,
                x <= w,
                s == row_seq(self@, y as int),
                s.len() == w,
                red_count == count_color(s.take(x as int), TangoTile::Red),
                blue_count == count_color(s.take(x as int), TangoTile::Blue),
                forall|i: int| 0 <= i && i + 2 < x as int ==> !(#[trigger] triple_at(s, i)),
                last_tile == (if x == 0 {
                    TangoTile::Empty
                } else {
                    s[x as int - 1]
                }),
                consecutive <= 1,
                (consecutive == 1 <==> (x >= 2 && s[x as int - 1] != TangoTile::Empty && s[x
                    as int - 1] == s[x as int - 2])),
            decreases w - x,
        {
            let tile = self.get_tile(x, y).unwrap();
            proof {
                lemma_index_bound(x as int, y as int, w as int, self@.height as int);
                assert(s[x as int] == tile_at(self@, x as int, y as int));
                lemma_count_take_succ(s, TangoTile::Red, x as int);
                lemma_count_take_succ(s, TangoTile::Blue, x as int);
                lemma_count_bound(s.take(x as int), TangoTile::Red);
                lemma_count_bound(s.take(x as int), TangoTile::Blue);
            }
            match tile {
                TangoTile::Red => {
                    red_count = red_count + 1;
                },
                TangoTile::Blue => {
                    blue_count = blue_count + 1;
                },
                TangoTile::Empty => {},
            }
            if tile != TangoTile::Empty && tile == last_tile {
                consecutive = consecutive + 1;
                if consecutive > 1 {
                    proof {
                        assert(triple_at(s, x as int - 2));
                    }
                    return false;
                }
            } else {
                consecutive = 0;
            }
            proof {
                assert forall|i: int| 0 <= i && i + 2 < x as int + 1 implies !(#[trigger] triple_at(
                    s,
                    i,
                )) by {
                    if i + 2 == x as int {
                        assert(!triple_at(s, i));
                    }
                }
            }
            last_tile = tile;
            x = x + 1;
        }
        proof {
            lemma_count_take_all(s, TangoTile::Red);
            lemma_count_take_all(s, TangoTile::Blue);
            assert(!has_triple(s));
        }
        red_count <= w / 2 && blue_count <= w / 2
    }

    /// Checks the run and balance rules for column `x`; `false` for an
    /// out-of-range column.
    pub fn is_valid_column(&self, x: usize) -> (r: bool)
        requires
            self.wf(),
        ensures
            r == (x < self@.width && col_ok(self@, x as int)),
    {
        if x >= self.grid.width {
            return false;
        }
        let ghost s = col_seq(self@, x as int);
        let h = self.grid.height;
        let mut last_tile = TangoTile::Empty;
        let mut consecutive: usize = 0;
        let mut red_count: usize = 0;
        let mut blue_count: usize = 0;
        let mut y: usize = 0;
        while y < h
            invariant
                self.wf(),
                x < self@.width,
                h == self@.height,
                y <= h,
                s == col_seq(self@, x as int),
                s.len() == h,
                red_count == count_color(s.take(y as int), TangoTile::Red),
                blue_count == count_color(s.take(y as int), TangoTile::Blue),
                forall|i: int| 0 <= i && i + 2 < y as int ==> !(#[trigger] triple_at(s, i)),
                last_tile == (if y == 0 {
                    TangoTile::Empty
                } else {
                    s[y as int - 1]
                }),
                consecutive <= 1,
                (consecutive == 1 <==> (y >= 2 && s[y as int - 1] != TangoTile::Empty && s[y
                    as int - 1] == s[y as int - 2])),
            decreases h - y,
        {
            let tile = self.get_tile(x, y).unwrap();
            proof {
                lemma_index_bound(x as int, y as int, self@.width as int, h as int);
                assert(s[y as int] == tile_at(self@, x as int, y as int));
                lemma_count_take_succ(s, TangoTile::Red, y as int);
                lemma_count_take_succ(s, TangoTile::Blue, y as int);
                lemma_count_bound(s.take(y as int), TangoTile::Red);
                lemma_count_bound(s.take(y as int), TangoTile::Blue);
            }
            match tile {
                TangoTile::Red => {
                    red_count = red_count + 1;
                },
                TangoTile::Blue => {
                    blue_count = blue_count + 1;
                },
                TangoTile::Empty => {},
            }
            if tile != TangoTile::Empty && tile == last_tile {
                consecutive = consecutive + 1;
                if consecutive > 1 {
                    proof {
                        assert(triple_at(s, y as int - 2));
                    }
                    return false;
                }
            } else {
                consecutive = 0;
            }
            proof {
                assert forall|i: int| 0 <= i && i + 2 < y as int + 1 implies !(#[trigger] triple_at(
                    s,
                    i,
                )) by {
                    if i + 2 == y as int {
                        assert(!triple_at(s, i));
                    }
                }
            }
            last_tile = tile;
            y = y + 1;
        }
        proof {
            lemma_count_take_all(s, TangoTile::Red);
            lemma_count_take_all(s, TangoTile::Blue);
            assert(!has_triple(s));
        }
        red_count <= h / 2 && blue_count <= h / 2
    }

    /// Checks every restriction; one with an `Empty` (or out-of-range)
    /// endpoint is skipped, it does not constrain the board yet.
    pub fn check_restrictions(&self) -> (r: bool)
        requires
            self.wf(),
        ensures
            r == restrictions_ok(self@),
    {
        let n = self.restrictions.len();
        let mut i: usize = 0;
        while i < n
            invariant
                self.wf(),
                n == self@.restrictions.len(),
                i <= n,
                forall|j: int|
                    0 <= j < i ==> restriction_ok(self@, #[trigger] self@.restrictions[j]),
            decreases n - i,
        {
            match self.restrictions[i] {
                TangoRestriction::Same(p1, p2) => {
                    let t1 = self.get_tile(p1.0, p1.1);
                    let t2 = self.get_tile(p2.0, p2.1);
                    if let (Some(a), Some(b)) = (t1, t2) {
                        if a != TangoTile::Empty && b != TangoTile::Empty && a != b {
                            proof {
                                assert(!restriction_ok(self@, self@.restrictions[i as int]));
                            }
                            return false;
                        }
                    }
                },
                TangoRestriction::Different(p1, p2) => {
                    let t1 = self.get_tile(p1.0, p1.1);
                    let t2 = self.get_tile(p2.0, p2.1);
                    if let (Some(a), Some(b)) = (t1, t2) {
                        if a != TangoTile::Empty && b != TangoTile::Empty && a == b {
                            proof {
                                assert(!restriction_ok(self@, self@.restrictions[i as int]));
                            }
                            return false;
                        }
                    }
                },
            }
            i = i + 1;
        }
        true
    }

    /// Attempts to write `tile` at `(x, y)`, including `Empty` to clear the
    /// cell.
    ///
    /// The write is committed only if the affected row, the affected column
    /// and all restrictions still pass; otherwise the previous value is
    /// restored and `false` comes back. Every mutation is atomic: a valid
    /// board is never observed invalid.
    pub fn set_tile(&mut self, x: usize, y: usize, tile: TangoTile) -> (r: bool)
        requires
            old(self).wf(),
        ensures
            final(self).wf(),
            r == placement_ok(old(self)@, x as int, y as int, tile),
            final(self)@ == (if r {
                with_tile(old(self)@, x as int, y as int, tile)
            } else {
                old(self)@
            }),
            board_valid(old(self)@) ==> board_valid(final(self)@),
    {
        let ghost m0 = self@;
        let mut prev = TangoTile::Empty;
        let mut wrote = false;
        if let Some(cell) = self.grid.get_mut(x, y) {
            prev = *cell;
            *cell = tile;
            wrote = true;
        }
        proof {
            assert(self.grid.width == m0.width);
            assert(self.grid.height == m0.height);
            assert(self@.restrictions == m0.restrictions);
            if wrote {
                lemma_index_bound(x as int, y as int, m0.width as int, m0.height as int);
                assert(self@ =~= with_tile(m0, x as int, y as int, tile));
            } else {
                assert(self@ =~= m0);
            }
        }
        if self.is_valid_row(y) && self.is_valid_column(x) && self.check_restrictions() {
            proof {
                assert(placement_ok(m0, x as int, y as int, tile));
                if board_valid(m0) {
                    lemma_placement_preserves_valid(m0, x as int, y as int, tile);
                }
            }
            true
        } else {
            if let Some(cell) = self.grid.get_mut(x, y) {
                *cell = prev;
            }
            proof {
                if wrote {
                    let i0 = y as int * m0.width + x as int;
                    lemma_index_bound(x as int, y as int, m0.width as int, m0.height as int);
                    assert(self@.tiles =~= m0.tiles.update(i0, tile).update(i0, prev));
                    assert(self@.tiles =~= m0.tiles);
                }
                assert(self@ =~= m0);
            }
            false
        }
    }

    /// The first stored restriction relating the unordered pair `{a, b}`, if
    /// any.
    pub fn get_restriction(&self, a: (usize, usize), b: (usize, usize)) -> (r: Option<
        &TangoRestriction,
    >)
        ensures
            (r matches Some(x) ==> exists|i: int|
                0 <= i < self@.restrictions.len() && *x == self@.restrictions[i]
                    && restriction_matches_pair(*x, a, b) && (forall|j: int|
                    0 <= j < i ==> !restriction_matches_pair(
                        #[trigger] self@.restrictions[j],
                        a,
                        b,
                    ))),
            (r is None <==> forall|i: int|
                0 <= i < self@.restrictions.len() ==> !restriction_matches_pair(
                    #[trigger] self@.restrictions[i],
                    a,
                    b,
                )),
    {
        let n = self.restrictions.len();
        let mut i: usize = 0;
        while i < n
            invariant
                n == self@.restrictions.len(),
                i <= n,
                forall|j: int|
                    0 <= j < i ==> !restriction_matches_pair(#[trigger] self@.restrictions[j], a, b),
            decreases n - i,
        {
            let found = match &self.restrictions[i] {
                TangoRestriction::Same(p1, p2) => (p1.0 == a.0 && p1.1 == a.1 && p2.0 == b.0 && p2.1
                    == b.1) || (p1.0 == b.0 && p1.1 == b.1 && p2.0 == a.0 && p2.1 == a.1),
                TangoRestriction::Different(p1, p2) => (p1.0 == a.0 && p1.1 == a.1 && p2.0 == b.0
                    && p2.1 == b.1) || (p1.0 == b.0 && p1.1 == b.1 && p2.0 == a.0 && p2.1 == a.1),
            };
            if found {
                return Some(&self.restrictions[i]);
            }
            i = i + 1;
        }
        None
    }

    /// An independent copy of this board.
    pub fn duplicate(&self) -> (r: Tango)
        ensures
            r@ == self@,
    {
        let mut tiles: Vec<TangoTile> = Vec::new();
        let mut i: usize = 0;
        let n = self.grid.tiles.len();
        while i < n
            invariant
                n == self.grid.tiles@.len(),
                i <= n,
                tiles@ == self.grid.tiles@.take(i as int),
            decreases n - i,
        {
            tiles.push(self.grid.tiles[i]);
            proof {
                assert(tiles@ =~= self.grid.tiles@.take(i as int + 1));
            }
            i = i + 1;
        }
        let mut restrictions: Vec<TangoRestriction> = Vec::new();
        let mut j: usize = 0;
        let rn = self.restrictions.len();
        while j < rn
            invariant
                rn == self.restrictions@.len(),
                j <= rn,
                restrictions@ == self.restrictions@.take(j as int),
            decreases rn - j,
        {
            restrictions.push(self.restrictions[j]);
            proof {
                assert(restrictions@ =~= self.restrictions@.take(j as int + 1));
            }
            j = j + 1;
        }
        let r = Tango {
            grid: Grid { width: self.grid.width, height: self.grid.height, tiles },
            restrictions,
        };
        proof {
            assert(self.grid.tiles@.take(n as int) =~= self.grid.tiles@);
            assert(self.restrictions@.take(rn as int) =~= self.restrictions@);
            assert(r@ =~= self@);
        }
        r
    }
}

} // verus!

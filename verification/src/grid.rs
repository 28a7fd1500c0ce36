//! A fixed-size two-dimensional tile container in row-major layout.

use vstd::prelude::*;

use crate::tiles::TangoTile;

verus! {

/// A `width` by `height` container of tiles; the cell `(x, y)` lives at
/// index `y * width + x` of `tiles`.
#[derive(Debug)]
pub struct Grid {
    pub width: usize,
    pub height: usize,
    pub tiles: Vec<TangoTile>,
}

/// A row-major index stays below the cell count.
pub proof fn lemma_index_bound(x: int, y: int, w: int, h: int)
    requires
        0 <= x < w,
        0 <= y < h,
    ensures
        0 <= y * w + x < w * h,
{
    assert(0 <= y * w + x < w * h) by (nonlinear_arith)
        requires
            0 <= x < w,
            0 <= y < h,
    ;
}

/// Distinct coordinates have distinct row-major indices.
pub proof fn lemma_index_injective(x1: int, y1: int, x2: int, y2: int, w: int)
    requires
        0 <= x1 < w,
        0 <= x2 < w,
        0 <= y1,
        0 <= y2,
        !(x1 == x2 && y1 == y2),
    ensures
        y1 * w + x1 != y2 * w + x2,
{
    assert(y1 * w + x1 != y2 * w + x2) by (nonlinear_arith)
        requires
            0 <= x1 < w,
            0 <= x2 < w,
            0 <= y1,
            0 <= y2,
            !(x1 == x2 && y1 == y2),
    ;
}

impl Grid {
    /// The tile sequence covers exactly the advertised dimensions.
    pub open spec fn wf(&self) -> bool {
        self.tiles@.len() == self.width * self.height
    }

    /// Allocates a grid with every cell `Empty`.
    ///
    /// Positive dimensions are the caller's responsibility (the board checks
    /// them, the grid does not).
    pub fn new(width: usize, height: usize) -> (g: Grid)
        requires
            width * height <= usize::MAX,
        ensures
            g.wf(),
            g.width == width,
            g.height == height,
            forall|i: int| 0 <= i < g.tiles@.len() ==> g.tiles@[i] == TangoTile::Empty,
    {
        let n = width * height;
        let mut tiles: Vec<TangoTile> = Vec::new();
        let mut i: usize = 0;
        while i < n
            invariant
                i <= n,
                tiles@.len() == i,
                forall|j: int| 0 <= j < i ==> tiles@[j] == TangoTile::Empty,
            decreases n - i,
        {
            tiles.push(TangoTile::Empty);
            i = i + 1;
        }
        Grid { width, height, tiles }
    }

    /// The tile at `(x, y)`, or `None` if the coordinate is out of range.
    pub fn get(&self, x: usize, y: usize) -> (r: Option<&TangoTile>)
        requires
            self.wf(),
        ensures
            (r matches Some(t) ==> x < self.width && y < self.height && *t == self.tiles@[y
                * self.width + x]),
            (r is None <==> !(x < self.width && y < self.height)),
    {
        if x < self.width && y < self.height {
            let _n = self.tiles.len();
            proof {
                lemma_index_bound(x as int, y as int, self.width as int, self.height as int);
            }
            Some(&self.tiles[y * self.width + x])
        } else {
            None
        }
    }

    /// A mutable handle to the cell at `(x, y)`, or `None` if the coordinate
    /// is out of range.
    pub fn get_mut(&mut self, x: usize, y: usize) -> (r: Option<&mut TangoTile>)
        requires
            old(self).wf(),
        ensures
            final(self).width == old(self).width,
            final(self).height == old(self).height,
            x < old(self).width && y < old(self).height ==> (r matches Some(t) && *t == old(
                self,
            ).tiles@[y * old(self).width + x] && final(self).tiles@ == old(self).tiles@.update(
                y * old(self).width + x,
                *final(t),
            )),
            !(x < old(self).width && y < old(self).height) ==> (r is None && final(self).tiles@
                == old(self).tiles@),
    {
        if x < self.width && y < self.height {
            let _n = self.tiles.len();
            proof {
                lemma_index_bound(x as int, y as int, self.width as int, self.height as int);
            }
            let idx = y * self.width + x;
            Some(&mut self.tiles[idx])
        } else {
            None
        }
    }
}

} // verus!

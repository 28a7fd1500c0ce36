//! The tile values a grid cell can hold, the pairwise restrictions between
//! cells, and the error type of the engine.

use vstd::prelude::*;

verus! {

/// The value held by one grid cell: empty, or one of the two colors.
#[derive(Clone, Copy, Debug, PartialEq, Eq, Structural)]
pub enum TangoTile {
    Empty,
    Red,
    Blue,
}

/// A relation constraining the colors of two grid coordinates.
///
/// Each endpoint is an `(x, y)` coordinate. The pair is unordered when looked
/// up: `Same(a, b)` and `Same(b, a)` denote the same restriction. A
/// restriction with an endpoint that is still `Empty` (or out of range)
/// imposes no constraint yet.
#[derive(Clone, Copy, Debug)]
pub enum TangoRestriction {
    Same((usize, usize), (usize, usize)),
    Different((usize, usize), (usize, usize)),
}

/// The failures the engine reports.
#[derive(Clone, Copy, Debug, PartialEq, Eq, Structural)]
pub enum TangoError {
    /// Board construction was given a zero or odd width or height.
    InvalidDimensions,
    /// Puzzle generation gave up after its bound on attempts.
    GenerationExhausted,
}

impl TangoTile {
    /// A short label for the tile, usable by display layers.
    pub fn label(&self) -> (r: &'static str)
        ensures
            r@ == (match self {
                TangoTile::Empty => "Empty"@,
                TangoTile::Red => "Red"@,
                TangoTile::Blue => "Blue"@,
            }),
    {
        match self {
            TangoTile::Empty => "Empty",
            TangoTile::Red => "Red",
            TangoTile::Blue => "Blue",
        }
    }
}

/// The two coordinates a restriction relates, in stored order.
pub open spec fn endpoints(r: TangoRestriction) -> ((usize, usize), (usize, usize)) {
    match r {
        TangoRestriction::Same(p1, p2) => (p1, p2),
        TangoRestriction::Different(p1, p2) => (p1, p2),
    }
}

/// Holds when `r` relates the unordered coordinate pair `{a, b}`.
pub open spec fn restriction_matches_pair(
    r: TangoRestriction,
    a: (usize, usize),
    b: (usize, usize),
) -> bool {
    match r {
        TangoRestriction::Same(p1, p2) => (p1 == a && p2 == b) || (p1 == b && p2 == a),
        TangoRestriction::Different(p1, p2) => (p1 == a && p2 == b) || (p1 == b && p2 == a),
    }
}

} // verus!

//! Random puzzle generation: candidate boards from a random restriction
//! subset and random seed tiles, filtered by rejection sampling until the
//! solution is unique.

use vstd::prelude::*;

use rand::seq::IteratorRandom;

use crate::board::{board_valid, Tango};
use crate::solver::{completion_count, RecursiveTangoSolver};
use crate::tiles::{endpoints, TangoError, TangoRestriction, TangoTile};
use vstd::arithmetic::div_mod::{
    lemma_fundamental_div_mod, lemma_fundamental_div_mod_converse, lemma_mod_bound,
};

verus! {

/// Relies on `rand::random_range`: a uniform draw from `0 ..= n`.
#[verifier::external_body]
fn random_upto(n: usize) -> (r: usize)
    ensures
        r <= n,
{
    rand::random_range(0..=n)
}

/// Relies on `rand::random_ratio`: a coin that comes up true with
/// probability `num / den`. Nothing is promised of a single draw.
#[verifier::external_body]
fn random_chance(num: u32, den: u32) -> (r: bool)
    requires
        0 < den,
        num <= den,
{
    rand::random_ratio(num, den)
}

/// Relies on `rand::seq::IteratorRandom::choose_multiple` over `0 .. n`:
/// `k` indices below `n`, sampled uniformly without replacement, so all
/// distinct.
#[verifier::external_body]
fn sample_indices(n: usize, k: usize) -> (r: Vec<usize>)
    requires
        k <= n,
    ensures
        r@.len() == k,
        forall|i: int| 0 <= i < r@.len() ==> r@[i] < n,
        forall|i: int, j: int| 0 <= i < j < r@.len() ==> r@[i] != r@[j],
{
    let mut rng = rand::rng();
    (0..n).choose_multiple(&mut rng, k)
}

/// The horizontal neighbor pair at slot `k` of the x-major enumeration:
/// `((x, y), (x + 1, y))` with `x == k / h` and `y == k % h`.
pub open spec fn horiz_pair(h: int, k: int) -> ((usize, usize), (usize, usize)) {
    (((k / h) as usize, (k % h) as usize), ((k / h + 1) as usize, (k % h) as usize))
}

/// The vertical neighbor pair at slot `k` of the x-major enumeration:
/// `((x, y), (x, y + 1))` with `x == k / (h - 1)` and `y == k % (h - 1)`.
pub open spec fn vert_pair(h: int, k: int) -> ((usize, usize), (usize, usize)) {
    (
        ((k / (h - 1)) as usize, (k % (h - 1)) as usize),
        ((k / (h - 1)) as usize, (k % (h - 1) + 1) as usize),
    )
}

/// `p` joins a cell to its right or lower neighbor, both in bounds.
pub open spec fn is_adjacent_pair(w: nat, h: nat, p: ((usize, usize), (usize, usize))) -> bool {
    ||| (p.1.0 == p.0.0 + 1 && p.1.1 == p.0.1 && p.1.0 < w && p.0.1 < h)
    ||| (p.1.0 == p.0.0 && p.1.1 == p.0.1 + 1 && p.0.0 < w && p.1.1 < h)
}

/// Division and remainder facts for a nonnegative dividend.
proof fn lemma_div_mod_basics(k: int, d: int)
    requires
        0 <= k,
        0 < d,
    ensures
        k == d * (k / d) + k % d,
        0 <= k % d < d,
        k % d <= k,
        0 <= k / d <= k,
{
    lemma_fundamental_div_mod(k, d);
    lemma_mod_bound(k, d);
    assert(k % d <= k && 0 <= k / d <= k) by (nonlinear_arith)
        requires
            0 <= k,
            0 < d,
            k == d * (k / d) + k % d,
            0 <= k % d < d,
    ;
}

/// The pair list never outgrows `2 * w * h` slots.
proof fn lemma_pair_list_len_bound(w: int, h: int)
    requires
        0 < w,
        0 < h,
    ensures
        0 <= (w - 1) * h,
        0 <= w * (h - 1),
        (w - 1) * h + w * (h - 1) <= 2 * w * h,
{
    assert(0 <= (w - 1) * h && 0 <= w * (h - 1) && (w - 1) * h + w * (h - 1) <= 2 * w * h)
        by (nonlinear_arith)
        requires
            0 < w,
            0 < h,
    ;
}

/// Builds randomized candidate boards of a fixed size, from the
/// precomputed list of adjacent-cell pairs.
pub struct TangoGenerator {
    pub width: usize,
    pub height: usize,
    pub neighbor_pairs: Vec<((usize, usize), (usize, usize))>,
}

impl TangoGenerator {
    /// The dimensions are positive and small enough, and the pair list is
    /// exactly the x-major enumeration of horizontal then vertical
    /// neighbors.
    pub open spec fn wf(&self) -> bool {
        &&& 0 < self.width
        &&& 0 < self.height
        &&& 2 * self.width * self.height <= usize::MAX
        &&& self.neighbor_pairs@.len() == (self.width - 1) * self.height + self.width * (
        self.height - 1)
        &&& forall|k: int|
            0 <= k < (self.width - 1) * self.height ==> #[trigger] self.neighbor_pairs@[k]
                == horiz_pair(self.height as int, k)
        &&& forall|k: int|
            (self.width - 1) * self.height <= k < self.neighbor_pairs@.len()
                ==> #[trigger] self.neighbor_pairs@[k] == vert_pair(
                self.height as int,
                k - (self.width - 1) * self.height,
            )
    }

    /// Precomputes the full list of adjacent-cell pairs: each cell with its
    /// right neighbor, then each cell with the neighbor below. The list is
    /// fixed for the generator's lifetime.
    pub fn new(width: usize, height: usize) -> (g: TangoGenerator)
        requires
            1 <= width,
            1 <= height,
            2 * width * height <= usize::MAX,
        ensures
            g.wf(),
            g.width == width,
            g.height == height,
    {
        let ghost h = height as int;
        let mut pairs: Vec<((usize, usize), (usize, usize))> = Vec::new();
        let mut x: usize = 0;
        while x < width - 1
            invariant
                1 <= width,
                1 <= height,
                x <= width - 1,
                pairs@.len() == x * height,
                h == height as int,
                forall|k: int| 0 <= k < pairs@.len() ==> #[trigger] pairs@[k] == horiz_pair(h, k),
            decreases width - 1 - x,
        {
            let mut y: usize = 0;
            while y < height
                invariant
                    1 <= width,
                    1 <= height,
                    x < width - 1,
                    y <= height,
                    pairs@.len() == x * height + y,
                    h == height as int,
                    forall|k: int|
                        0 <= k < pairs@.len() ==> #[trigger] pairs@[k] == horiz_pair(h, k),
                decreases height - y,
            {
                pairs.push(((x, y), (x + 1, y)));
                proof {
                    let k0 = x as int * h + y as int;
                    lemma_fundamental_div_mod_converse(k0, h, x as int, y as int);
                    assert(pairs@[k0] == horiz_pair(h, k0));
                }
                y = y + 1;
            }
            proof {
                assert((x + 1) * height == x * height + height) by (nonlinear_arith);
            }
            x = x + 1;
        }
        let ghost base = (width - 1) * height as int;
        proof {
            assert(pairs@.len() == base);
        }
        let mut x2: usize = 0;
        while x2 < width
            invariant
                1 <= width,
                1 <= height,
                x2 <= width,
                base == (width - 1) * height as int,
                h == height as int,
                pairs@.len() == base + x2 * (height - 1),
                forall|k: int| 0 <= k < base ==> #[trigger] pairs@[k] == horiz_pair(h, k),
                forall|k: int|
                    base <= k < pairs@.len() ==> #[trigger] pairs@[k] == vert_pair(h, k - base),
            decreases width - x2,
        {
            let mut y2: usize = 0;
            while y2 < height - 1
                invariant
                    1 <= width,
                    1 <= height,
                    x2 < width,
                    y2 <= height - 1,
                    base == (width - 1) * height as int,
                    h == height as int,
                    pairs@.len() == base + x2 * (height - 1) + y2,
                    forall|k: int| 0 <= k < base ==> #[trigger] pairs@[k] == horiz_pair(h, k),
                    forall|k: int|
                        base <= k < pairs@.len() ==> #[trigger] pairs@[k] == vert_pair(h, k - base),
                decreases height - 1 - y2,
            {
                pairs.push(((x2, y2), (x2, y2 + 1)));
                proof {
                    let k0 = base + x2 as int * (h - 1) + y2 as int;
                    lemma_fundamental_div_mod_converse(k0 - base, h - 1, x2 as int, y2 as int);
                    assert(pairs@[k0] == vert_pair(h, k0 - base));
                }
                y2 = y2 + 1;
            }
            proof {
                assert(x2 as int * (height - 1) + (height - 1) == (x2 as int + 1) * (height - 1))
                    by (nonlinear_arith);
            }
            x2 = x2 + 1;
        }
        TangoGenerator { width, height, neighbor_pairs: pairs }
    }

    /// Builds one random candidate board: a random subset of the neighbor
    /// pairs, each labelled `Same` or `Different` by a coin flip, then a
    /// best-effort sparse seeding of cells (a seed that breaks a rule is
    /// silently skipped).
    ///
    /// The result is always valid, its restrictions relate only adjacent
    /// cells, and no two restrictions share an endpoint pair.
    pub fn generate(&self) -> (t: Tango)
        requires
            self.wf(),
            self.width % 2 == 0,
            self.height % 2 == 0,
        ensures
            t.wf(),
            board_valid(t@),
            t@.width == self.width,
            t@.height == self.height,
            forall|i: int|
                0 <= i < t@.restrictions.len() ==> is_adjacent_pair(
                    self.width as nat,
                    self.height as nat,
                    endpoints(#[trigger] t@.restrictions[i]),
                ),
            forall|i: int, j: int|
                0 <= i < j < t@.restrictions.len() ==> endpoints(t@.restrictions[i]) != endpoints(
                    t@.restrictions[j],
                ),
    {
        proof {
            lemma_neighbor_pairs_adjacent(*self);
            lemma_neighbor_pairs_distinct(*self);
        }
        let total = self.neighbor_pairs.len();
        let to_take = random_upto(total);
        let idxs = sample_indices(total, to_take);
        let n = idxs.len();
        let mut restrictions: Vec<TangoRestriction> = Vec::new();
        let mut i: usize = 0;
        while i < n
            invariant
                self.wf(),
                n == idxs@.len(),
                i <= n,
                forall|q: int| 0 <= q < idxs@.len() ==> #[trigger] idxs@[q] < self.neighbor_pairs@.len(),
                forall|q1: int, q2: int|
                    0 <= q1 < q2 < idxs@.len() ==> idxs@[q1] != idxs@[q2],
                restrictions@.len() == i,
                forall|q: int|
                    0 <= q < i ==> endpoints(#[trigger] restrictions@[q])
                        == self.neighbor_pairs@[idxs@[q] as int],
            decreases n - i,
        {
            let idx = idxs[i];
            let pair = self.neighbor_pairs[idx];
            if random_chance(1, 2) {
                restrictions.push(TangoRestriction::Same(pair.0, pair.1));
            } else {
                restrictions.push(TangoRestriction::Different(pair.0, pair.1));
            }
            i = i + 1;
        }
        let ghost rs = restrictions@;
        proof {
            lemma_neighbor_pairs_adjacent(*self);
            lemma_neighbor_pairs_distinct(*self);
            assert(self.width * self.height <= usize::MAX) by (nonlinear_arith)
                requires
                    0 < self.width,
                    0 < self.height,
                    2 * self.width * self.height <= usize::MAX,
            ;
        }
        let mut tango = Tango::new(self.width, self.height, restrictions).unwrap();
        let mut y: usize = 0;
        while y < self.height
            invariant
                self.wf(),
                tango.wf(),
                board_valid(tango@),
                tango@.width == self.width,
                tango@.height == self.height,
                tango@.restrictions == rs,
                y <= self.height,
            decreases self.height - y,
        {
            let mut x: usize = 0;
            while x < self.width
                invariant
                    self.wf(),
                    tango.wf(),
                    board_valid(tango@),
                    tango@.width == self.width,
                    tango@.height == self.height,
                    tango@.restrictions == rs,
                    y < self.height,
                    x <= self.width,
                decreases self.width - x,
            {
                if random_chance(1, 10) {
                    if random_chance(1, 2) {
                        let _committed = tango.set_tile(x, y, TangoTile::Red);
                    } else {
                        let _committed = tango.set_tile(x, y, TangoTile::Blue);
                    }
                }
                x = x + 1;
            }
            y = y + 1;
        }
        tango
    }

    /// Rejection sampling: generates candidates until one has exactly one
    /// completion, and returns that candidate unsolved. Gives up with
    /// `GenerationExhausted` after `max_attempts` candidates; an unlucky
    /// draw is no error, it just costs another attempt.
    pub fn generate_one_solution_board(&self, max_attempts: u64) -> (r: Result<Tango, TangoError>)
        requires
            self.wf(),
            self.width % 2 == 0,
            self.height % 2 == 0,
        ensures
            (r matches Ok(t) ==> t.wf() && board_valid(t@) && completion_count(t@) == 1 && t@.width
                == self.width && t@.height == self.height),
            (r matches Err(e) ==> e == TangoError::GenerationExhausted),
    {
        let mut attempts: u64 = 0;
        while attempts < max_attempts
            invariant
                self.wf(),
                self.width % 2 == 0,
                self.height % 2 == 0,
            decreases max_attempts - attempts,
        {
            let candidate = self.generate();
            let mut solver = RecursiveTangoSolver::new(candidate.duplicate());
            let count = solver.count_completions_up_to(2);
            if count == 1 {
                return Ok(candidate);
            }
            attempts = attempts + 1;
        }
        Err(TangoError::GenerationExhausted)
    }

    /// The puzzle the service hands out: a six-by-six board generated until
    /// its solution is unique.
    pub fn generate_one_solution_tango() -> (r: Result<Tango, TangoError>)
        ensures
            (r matches Ok(t) ==> t.wf() && board_valid(t@) && completion_count(t@) == 1 && t@.width
                == 6 && t@.height == 6),
            (r matches Err(e) ==> e == TangoError::GenerationExhausted),
    {
        let generator = TangoGenerator::new(6, 6);
        generator.generate_one_solution_board(u64::MAX)
    }
}

/// Every slot of the pair list holds two adjacent in-bounds cells.
pub proof fn lemma_neighbor_pairs_adjacent(g: TangoGenerator)
    requires
        g.wf(),
    ensures
        forall|k: int|
            0 <= k < g.neighbor_pairs@.len() ==> is_adjacent_pair(
                g.width as nat,
                g.height as nat,
                #[trigger] g.neighbor_pairs@[k],
            ),
{
    let w = g.width as int;
    let h = g.height as int;
    let base = (w - 1) * h;
    let s = g.neighbor_pairs@;
    lemma_pair_list_len_bound(w, h);
    assert forall|k: int| 0 <= k < s.len() implies is_adjacent_pair(
        g.width as nat,
        g.height as nat,
        s[k],
    ) by {
        if k < base {
            lemma_div_mod_basics(k, h);
            assert(k / h < w - 1) by (nonlinear_arith)
                requires
                    0 < h,
                    k < (w - 1) * h,
                    k == h * (k / h) + k % h,
                    0 <= k % h < h,
            ;
            assert(s[k] == horiz_pair(h, k));
        } else {
            assert(0 < h - 1) by (nonlinear_arith)
                requires
                    0 < w,
                    0 <= k - base,
                    k - base < w * (h - 1),
            ;
            let kk = k - base;
            lemma_div_mod_basics(kk, h - 1);
            assert(kk / (h - 1) < w) by (nonlinear_arith)
                requires
                    0 < h - 1,
                    kk < w * (h - 1),
                    kk == (h - 1) * (kk / (h - 1)) + kk % (h - 1),
                    0 <= kk % (h - 1) < h - 1,
            ;
            assert(s[k] == vert_pair(h, kk));
        }
    }
}

/// The pair list is complete: every adjacent in-bounds pair has a slot.
pub proof fn lemma_neighbor_pairs_complete(g: TangoGenerator)
    requires
        g.wf(),
    ensures
        forall|p: ((usize, usize), (usize, usize))|
            is_adjacent_pair(g.width as nat, g.height as nat, p)
                ==> #[trigger] g.neighbor_pairs@.contains(p),
{
    let w = g.width as int;
    let h = g.height as int;
    let base = (w - 1) * h;
    let s = g.neighbor_pairs@;
    lemma_pair_list_len_bound(w, h);
    assert forall|p: ((usize, usize), (usize, usize))|
        is_adjacent_pair(g.width as nat, g.height as nat, p) implies #[trigger] s.contains(p) by {
        let x = p.0.0 as int;
        let y = p.0.1 as int;
        if p.1.0 == p.0.0 + 1 && p.1.1 == p.0.1 && p.1.0 < g.width && p.0.1 < g.height {
            let k = x * h + y;
            lemma_fundamental_div_mod_converse(k, h, x, y);
            assert(0 <= k < base) by (nonlinear_arith)
                requires
                    0 <= x,
                    x + 1 < w,
                    0 <= y < h,
                    k == x * h + y,
                    base == (w - 1) * h,
            ;
            assert(s[k] == horiz_pair(h, k));
            assert(s[k] == p);
        } else {
            let k = base + x * (h - 1) + y;
            assert(0 <= x * (h - 1) + y && x * (h - 1) + y < w * (h - 1)) by (nonlinear_arith)
                requires
                    0 <= x < w,
                    0 <= y,
                    y + 1 < h,
            ;
            lemma_fundamental_div_mod_converse(k - base, h - 1, x, y);
            assert(s[k] == vert_pair(h, k - base));
            assert(s[k] == p);
        }
    }
}

/// Distinct slots of the pair list hold distinct pairs.
pub proof fn lemma_neighbor_pairs_distinct(g: TangoGenerator)
    requires
        g.wf(),
    ensures
        forall|k1: int, k2: int|
            0 <= k1 < k2 < g.neighbor_pairs@.len() ==> g.neighbor_pairs@[k1]
                != g.neighbor_pairs@[k2],
{
    let w = g.width as int;
    let h = g.height as int;
    let base = (w - 1) * h;
    let s = g.neighbor_pairs@;
    lemma_pair_list_len_bound(w, h);
    assert forall|k1: int, k2: int| 0 <= k1 < k2 < s.len() implies s[k1] != s[k2] by {
        if k2 < base {
            lemma_div_mod_basics(k1, h);
            lemma_div_mod_basics(k2, h);
            if s[k1] == s[k2] {
                assert(k1 / h == k2 / h);
                assert(k1 % h == k2 % h);
                assert(k1 == k2);
            }
        } else if k1 >= base {
            assert(0 < h - 1) by (nonlinear_arith)
                requires
                    0 < w,
                    0 <= k2 - base,
                    k2 - base < w * (h - 1),
            ;
            lemma_div_mod_basics(k1 - base, h - 1);
            lemma_div_mod_basics(k2 - base, h - 1);
            if s[k1] == s[k2] {
                assert((k1 - base) / (h - 1) == (k2 - base) / (h - 1));
                assert((k1 - base) % (h - 1) == (k2 - base) % (h - 1));
                assert(k1 == k2);
            }
        } else {
            assert(0 < h - 1) by (nonlinear_arith)
                requires
                    0 < w,
                    0 <= k2 - base,
                    k2 - base < w * (h - 1),
            ;
            lemma_div_mod_basics(k1, h);
            lemma_div_mod_basics(k2 - base, h - 1);
            if s[k1] == s[k2] {
                assert(s[k1].1.0 == s[k1].0.0 + 1);
                assert(s[k2].1.0 == s[k2].0.0);
                assert(false);
            }
        }
    }
}

} // verus!

//! Counting occurrences of a tile value in a sequence, with the lemmas the
//! board rules and the solver need.

use vstd::prelude::*;

use crate::tiles::TangoTile;

verus! {

/// How many cells of `s` hold exactly the value `c`.
pub open spec fn count_color(s: Seq<TangoTile>, c: TangoTile) -> nat
    decreases s.len(),
{
    if s.len() == 0 {
        0
    } else {
        count_color(s.drop_last(), c) + (if s.last() == c {
            1nat
        } else {
            0nat
        })
    }
}

/// Extending a prefix by one element adds that element's contribution.
pub proof fn lemma_count_take_succ(s: Seq<TangoTile>, c: TangoTile, i: int)
    requires
        0 <= i < s.len(),
    ensures
        count_color(s.take(i + 1), c) == count_color(s.take(i), c) + (if s[i] == c {
            1int
        } else {
            0int
        }),
{
    assert(s.take(i + 1).drop_last() =~= s.take(i));
    assert(s.take(i + 1).last() == s[i]);
}

/// The whole sequence is its own full prefix.
pub proof fn lemma_count_take_all(s: Seq<TangoTile>, c: TangoTile)
    ensures
        count_color(s.take(s.len() as int), c) == count_color(s, c),
{
    assert(s.take(s.len() as int) =~= s);
}

/// Replacing one element adjusts the count by the two elements' contributions.
pub proof fn lemma_count_update(s: Seq<TangoTile>, c: TangoTile, i: int, t: TangoTile)
    requires
        0 <= i < s.len(),
    ensures
        count_color(s.update(i, t), c) + (if s[i] == c {
            1int
        } else {
            0int
        }) == count_color(s, c) + (if t == c {
            1int
        } else {
            0int
        }),
    decreases s.len(),
{
    let u = s.update(i, t);
    if i == s.len() - 1 {
        assert(u.drop_last() =~= s.drop_last());
        assert(u.last() == t);
    } else {
        assert(u.drop_last() =~= s.drop_last().update(i, t));
        assert(u.last() == s.last());
        lemma_count_update(s.drop_last(), c, i, t);
    }
}

/// A count is zero exactly when no element holds the value.
pub proof fn lemma_count_zero(s: Seq<TangoTile>, c: TangoTile)
    ensures
        (count_color(s, c) == 0) <==> (forall|i: int| 0 <= i < s.len() ==> s[i] != c),
    decreases s.len(),
{
    if s.len() > 0 {
        lemma_count_zero(s.drop_last(), c);
        assert(forall|i: int| 0 <= i < s.len() - 1 ==> s[i] == s.drop_last()[i]);
        assert(s.last() == s[s.len() - 1]);
    }
}

/// A count never exceeds the sequence's length.
pub proof fn lemma_count_bound(s: Seq<TangoTile>, c: TangoTile)
    ensures
        count_color(s, c) <= s.len(),
    decreases s.len(),
{
    if s.len() > 0 {
        lemma_count_bound(s.drop_last(), c);
    }
}

} // verus!

//! The neighbourhood geometry and the transition rule, stated over sets of
//! integer coordinates.  Both colony representations are specified against
//! these definitions.

use vstd::prelude::*;

verus! {

/// Two coordinates are adjacent when they differ by at most one in each
/// component and are not the same cell: the eight-cell Moore neighbourhood.
pub open spec fn adj(a: (int, int), b: (int, int)) -> bool {
    &&& !(a == b)
    &&& -1 <= a.0 - b.0 <= 1
    &&& -1 <= a.1 - b.1 <= 1
}

/// 1 when the set holds the coordinate `(x, y)`, 0 otherwise.
pub open spec fn ind(l: Set<(int, int)>, x: int, y: int) -> int {
    if l.contains((x, y)) {
        1
    } else {
        0
    }
}

/// The number of live cells among the up-to-eight neighbours of `(x, y)`:
/// the sum of one indicator per neighbouring coordinate.  A grid edge needs
/// no special case here, because a live set never holds an out-of-grid cell.
/// Kept opaque so that neighbour counts do not unfold into membership
/// tests at every use; the lemmas below expose what callers need.
#[verifier::opaque]
pub open spec fn count8(l: Set<(int, int)>, x: int, y: int) -> int {
    ind(l, x - 1, y - 1) + ind(l, x - 1, y) + ind(l, x - 1, y + 1) + ind(l, x, y - 1) + ind(
        l,
        x,
        y + 1,
    ) + ind(l, x + 1, y - 1) + ind(l, x + 1, y) + ind(l, x + 1, y + 1)
}

/// The classic two-state rule: a cell is alive in the next generation iff
/// it has exactly three live neighbours, or exactly two and is alive now.
pub open spec fn life_rule(l: Set<(int, int)>, p: (int, int)) -> bool {
    count8(l, p.0, p.1) == 3 || (count8(l, p.0, p.1) == 2 && l.contains(p))
}

/// The next generation of a dense `width` by `height` grid: the rule,
/// clipped to the grid.
pub open spec fn dense_next(l: Set<(int, int)>, width: int, height: int) -> Set<(int, int)> {
    Set::new(|p: (int, int)| 0 <= p.0 < width && 0 <= p.1 < height && life_rule(l, p))
}

/// A coordinate pair that the sparse representation can hold.
pub open spec fn in_i64_range(p: (int, int)) -> bool {
    &&& i64::MIN <= p.0 <= i64::MAX
    &&& i64::MIN <= p.1 <= i64::MAX
}

/// The next generation of an unbounded sparse colony: the rule, clipped
/// only at the edge of the representable coordinate range.
pub open spec fn sparse_next(l: Set<(int, int)>) -> Set<(int, int)> {
    Set::new(|p: (int, int)| in_i64_range(p) && life_rule(l, p))
}

/// Every live cell lies strictly inside the grid, off the border.
pub open spec fn interior_only(l: Set<(int, int)>, width: int, height: int) -> bool {
    forall|p: (int, int)|
        #[trigger] l.contains(p) ==> 1 <= p.0 < width - 1 && 1 <= p.1 < height - 1
}

/// `n` generations of the dense transition.
pub open spec fn dense_iterated(l: Set<(int, int)>, width: int, height: int, n: nat) -> Set<
    (int, int),
>
    decreases n,
{
    if n == 0 {
        l
    } else {
        dense_next(dense_iterated(l, width, height, (n - 1) as nat), width, height)
    }
}

/// `n` generations of the sparse transition.
pub open spec fn sparse_iterated(l: Set<(int, int)>, n: nat) -> Set<(int, int)>
    decreases n,
{
    if n == 0 {
        l
    } else {
        sparse_next(sparse_iterated(l, (n - 1) as nat))
    }
}

/// A neighbouring cell that is absent leaves room below eight; one that
/// is present keeps the count above zero.
pub proof fn lemma_count8_slack(l: Set<(int, int)>, p: (int, int), x: int, y: int)
    requires
        adj(p, (x, y)),
    ensures
        !l.contains(p) ==> count8(l, x, y) <= 7,
        l.contains(p) ==> count8(l, x, y) >= 1,
{
    reveal(count8);
}

/// The neighbour count never leaves `[0, 8]`.
pub proof fn lemma_count8_bounds(l: Set<(int, int)>, x: int, y: int)
    ensures
        0 <= count8(l, x, y) <= 8,
{
    reveal(count8);
}

/// Making one dead cell alive raises the count of exactly its neighbours
/// by one.
pub proof fn lemma_count8_insert(l: Set<(int, int)>, p: (int, int), x: int, y: int)
    requires
        !l.contains(p),
    ensures
        count8(l.insert(p), x, y) == count8(l, x, y) + if adj(p, (x, y)) {
            1int
        } else {
            0int
        },
{
    reveal(count8);
}

/// Making one live cell dead lowers the count of exactly its neighbours
/// by one.
pub proof fn lemma_count8_remove(l: Set<(int, int)>, p: (int, int), x: int, y: int)
    requires
        l.contains(p),
    ensures
        count8(l.remove(p), x, y) == count8(l, x, y) - if adj(p, (x, y)) {
            1int
        } else {
            0int
        },
{
    reveal(count8);
}

} // verus!

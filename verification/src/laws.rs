//! The laws the library states of its colonies, each proved by Verus:
//! idempotence of the liveness flips, agreement of the two colony
//! representations over one step, and agreement of the chunked and
//! single-pass neighbour-count aggregations.

use vstd::prelude::*;

use crate::rules::count8;
use crate::rules::dense_iterated;
use crate::rules::dense_next;
use crate::rules::in_i64_range;
use crate::rules::interior_only;
use crate::rules::life_rule;
use crate::rules::sparse_iterated;
use crate::rules::sparse_next;
use crate::sparse::adj_count;
use crate::sparse::ckey;
use crate::sparse::counts_ok;
use crate::sparse::has_key;
use crate::sparse::SparseColony;
use crate::structs::Colony;

verus! {

/// What `make_alive` promises of a colony: same grid, the invariant, and
/// the cell joined to the live set.
pub open spec fn make_alive_rel(pre: Colony, post: Colony, x: int, y: int) -> bool {
    &&& post.wf()
    &&& post.width() == pre.width()
    &&& post.height() == pre.height()
    &&& post.live_set() == pre.live_set().insert((x, y))
}

/// What `make_dead` promises of a colony: same grid, the invariant, and
/// the cell taken out of the live set.
pub open spec fn make_dead_rel(pre: Colony, post: Colony, x: int, y: int) -> bool {
    &&& post.wf()
    &&& post.width() == pre.width()
    &&& post.height() == pre.height()
    &&& post.live_set() == pre.live_set().remove((x, y))
}

/// Two well-formed colonies of the same dimensions and the same live set
/// agree on every cell: the live set determines the whole dense state.
pub proof fn lemma_state_determined(c1: Colony, c2: Colony)
    requires
        c1.wf(),
        c2.wf(),
        c1.width() == c2.width(),
        c1.height() == c2.height(),
        c1.live_set() == c2.live_set(),
    ensures
        forall|x: int, y: int| c1.in_bounds(x, y) ==> #[trigger] c1.cell(x, y) == c2.cell(x, y),
{
    assert forall|x: int, y: int| c1.in_bounds(x, y) implies #[trigger] c1.cell(x, y) == c2.cell(
        x,
        y,
    ) by {
        assert(c1.live_set().contains((x, y)) == c1.cell(x, y).alive);
        assert(c2.live_set().contains((x, y)) == c2.cell(x, y).alive);
        assert(c1.cell(x, y).neighbours as int == count8(c1.live_set(), x, y));
        assert(c2.cell(x, y).neighbours as int == count8(c2.live_set(), x, y));
    }
}

/// Idempotence of `make_alive`: flipping a cell alive a second time
/// leaves every cell exactly as the first flip left it.
pub proof fn lemma_make_alive_idempotent(c0: Colony, c1: Colony, c2: Colony, x: int, y: int)
    requires
        c0.wf(),
        make_alive_rel(c0, c1, x, y),
        make_alive_rel(c1, c2, x, y),
    ensures
        c2.width() == c1.width(),
        c2.height() == c1.height(),
        forall|a: int, b: int| c1.in_bounds(a, b) ==> #[trigger] c1.cell(a, b) == c2.cell(a, b),
{
    assert(c1.live_set().insert((x, y)) =~= c1.live_set());
    lemma_state_determined(c1, c2);
}

/// Idempotence of `make_dead`: flipping a cell dead a second time leaves
/// every cell exactly as the first flip left it.
pub proof fn lemma_make_dead_idempotent(c0: Colony, c1: Colony, c2: Colony, x: int, y: int)
    requires
        c0.wf(),
        make_dead_rel(c0, c1, x, y),
        make_dead_rel(c1, c2, x, y),
    ensures
        c2.width() == c1.width(),
        c2.height() == c1.height(),
        forall|a: int, b: int| c1.in_bounds(a, b) ==> #[trigger] c1.cell(a, b) == c2.cell(a, b),
{
    assert(c1.live_set().remove((x, y)) =~= c1.live_set());
    lemma_state_determined(c1, c2);
}

/// Cross-representation agreement for one step: while every live cell
/// stays off the dense grid's border, the dense transition and the
/// sparse transition of the same live set produce the same live set.
/// `process_frame` takes a dense colony's live set to `dense_next`, and
/// `SparseColony::step` takes a sparse colony's to `sparse_next`, so the
/// two representations march in step until the population reaches the
/// border, where the dense grid clips and the sparse plane does not.
pub proof fn lemma_cross_representation_step(l: Set<(int, int)>, w: int, h: int)
    requires
        0 < w <= i64::MAX,
        0 < h <= i64::MAX,
        interior_only(l, w, h),
    ensures
        dense_next(l, w, h) == sparse_next(l),
{
    assert forall|q: (int, int)| dense_next(l, w, h).contains(q) implies sparse_next(l).contains(
        q,
    ) by {
        assert(in_i64_range(q));
    }
    assert forall|q: (int, int)| sparse_next(l).contains(q) implies dense_next(l, w, h).contains(
        q,
    ) by {
        assert(life_rule(l, q));
        assert(count8(l, q.0, q.1) >= 2);
        reveal(count8);
    }
    assert(dense_next(l, w, h) =~= sparse_next(l));
}

/// Cross-representation agreement over any number of generations:
/// while every intermediate generation keeps off the dense border,
/// iterating the dense transition and iterating the sparse transition
/// from the same live set yield the same live set, by induction on the
/// one-step agreement.
pub proof fn lemma_cross_representation_generations(l: Set<(int, int)>, w: int, h: int, n: nat)
    requires
        0 < w <= i64::MAX,
        0 < h <= i64::MAX,
        forall|k: nat| k < n ==> #[trigger] interior_only(sparse_iterated(l, k), w, h),
    ensures
        dense_iterated(l, w, h, n) == sparse_iterated(l, n),
    decreases n,
{
    if n > 0 {
        lemma_cross_representation_generations(l, w, h, (n - 1) as nat);
        assert(interior_only(sparse_iterated(l, (n - 1) as nat), w, h));
        lemma_cross_representation_step(sparse_iterated(l, (n - 1) as nat), w, h);
    }
}

/// What `process_frame` promises of a dense colony: same grid, the
/// invariant, and the live set advanced one generation with edges
/// clipped at the grid border.
pub open spec fn process_frame_rel(pre: Colony, post: Colony) -> bool {
    &&& post.wf()
    &&& post.width() == pre.width()
    &&& post.height() == pre.height()
    &&& post.live_set() == dense_next(pre.live_set(), pre.width(), pre.height())
}

/// What `SparseColony::step` promises: the invariant, and the live set
/// advanced one generation with edges clipped only at the coordinate
/// range.
pub open spec fn sparse_step_rel(pre: SparseColony, post: SparseColony) -> bool {
    &&& post.wf()
    &&& post.live_set() == sparse_next(pre.live_set())
}

/// A dense and a sparse colony that start from the same live set, with
/// no live cell on the dense border, hold the same live set again after
/// each takes one step of its own transition.
pub proof fn lemma_colonies_step_together(
    d0: Colony,
    d1: Colony,
    s0: SparseColony,
    s1: SparseColony,
)
    requires
        d0.wf(),
        s0.wf(),
        d0.width() <= i64::MAX,
        d0.height() <= i64::MAX,
        d0.live_set() == s0.live_set(),
        interior_only(d0.live_set(), d0.width(), d0.height()),
        process_frame_rel(d0, d1),
        sparse_step_rel(s0, s1),
    ensures
        d1.live_set() == s1.live_set(),
{
    lemma_cross_representation_step(d0.live_set(), d0.width(), d0.height());
}

/// The count recorded for a coordinate; meaningful where the table has a
/// key for it.
pub open spec fn val_at(e: Seq<((i64, i64), u8)>, c: (int, int)) -> int {
    e[choose|k: int| 0 <= k < e.len() && ckey(e[k]) == c].1 as int
}

/// The coordinate-to-count map a counts table denotes.
pub open spec fn counts_map(e: Seq<((i64, i64), u8)>) -> Map<(int, int), int> {
    Map::new(|c: (int, int)| has_key(e, c), |c: (int, int)| val_at(e, c))
}

/// Chunked and single-pass aggregation agree: any two exact counts
/// tables of the same live cells denote the same coordinate-to-count
/// map, whatever the chunking and in whatever order their entries sit.
pub proof fn lemma_counts_agree(
    e1: Seq<((i64, i64), u8)>,
    e2: Seq<((i64, i64), u8)>,
    s: Seq<(int, int)>,
)
    requires
        counts_ok(e1, s),
        counts_ok(e2, s),
    ensures
        counts_map(e1) == counts_map(e2),
{
    assert forall|c: (int, int)| #[trigger] has_key(e1, c) implies has_key(e2, c) && val_at(
        e1,
        c,
    ) == val_at(e2, c) by {
        let k1 = choose|k: int| 0 <= k < e1.len() && ckey(#[trigger] e1[k]) == c;
        assert(in_i64_range(c));
        assert(adj_count(s, c) > 0);
        let k2 = choose|k: int| 0 <= k < e2.len() && ckey(#[trigger] e2[k]) == c;
        assert(val_at(e1, c) == adj_count(s, c));
        assert(val_at(e2, c) == adj_count(s, c));
    }
    assert forall|c: (int, int)| #[trigger] has_key(e2, c) implies has_key(e1, c) by {
        let k2 = choose|k: int| 0 <= k < e2.len() && ckey(#[trigger] e2[k]) == c;
        assert(in_i64_range(c));
        assert(adj_count(s, c) > 0);
    }
    assert(counts_map(e1) =~= counts_map(e2));
}

} // verus!

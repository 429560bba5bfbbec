//! The sparse colony: a set of live coordinates on the unbounded plane.
//! No neighbour count survives between generations; each step recomputes,
//! for every candidate neighbour coordinate of a live cell, how many live
//! cells sit next to it, optionally in chunks whose partial counts are
//! merged by per-coordinate summation.

use vstd::prelude::*;

use crate::rules::adj;
use crate::rules::count8;
use crate::rules::in_i64_range;
use crate::rules::lemma_count8_bounds;
use crate::rules::lemma_count8_insert;
use crate::rules::life_rule;
use crate::rules::sparse_next;

verus! {

/// The coordinate pair of a machine-integer pair.
pub open spec fn ipair(p: (i64, i64)) -> (int, int) {
    (p.0 as int, p.1 as int)
}

/// The coordinate sequence of a machine-integer pair sequence.
pub open spec fn iseq(s: Seq<(i64, i64)>) -> Seq<(int, int)> {
    Seq::new(s.len(), |k: int| ipair(s[k]))
}

/// No coordinate occurs twice.
pub open spec fn nodup(s: Seq<(int, int)>) -> bool {
    forall|k1: int, k2: int| #![trigger s[k1], s[k2]] 0 <= k1 < k2 < s.len() ==> s[k1] != s[k2]
}

/// The set of coordinates that occur in the sequence.
pub open spec fn set_of(s: Seq<(int, int)>) -> Set<(int, int)> {
    Set::new(|q: (int, int)| exists|k: int| 0 <= k < s.len() && #[trigger] s[k] == q)
}

/// How many cells of the sequence are adjacent to `c`.
pub open spec fn adj_count(s: Seq<(int, int)>, c: (int, int)) -> int
    decreases s.len(),
{
    if s.len() == 0 {
        0
    } else {
        adj_count(s.drop_last(), c) + if adj(s.last(), c) {
            1int
        } else {
            0int
        }
    }
}

/// A cell appended at the end contributes one to the count of exactly its
/// neighbours.
pub proof fn lemma_adj_count_push(s: Seq<(int, int)>, e: (int, int), c: (int, int))
    ensures
        adj_count(s.push(e), c) == adj_count(s, c) + if adj(e, c) {
            1int
        } else {
            0int
        },
{
    assert(s.push(e).drop_last() =~= s);
    assert(s.push(e).last() == e);
}

/// Adjacency counts are never negative.
pub proof fn lemma_adj_count_nonneg(s: Seq<(int, int)>, c: (int, int))
    ensures
        0 <= adj_count(s, c),
    decreases s.len(),
{
    if s.len() > 0 {
        lemma_adj_count_nonneg(s.drop_last(), c);
    }
}

/// Over a duplicate-free sequence, the adjacency count is the neighbour
/// count of the corresponding set.
pub proof fn lemma_adj_count_set(s: Seq<(int, int)>, c: (int, int))
    requires
        nodup(s),
    ensures
        adj_count(s, c) == count8(set_of(s), c.0, c.1),
    decreases s.len(),
{
    if s.len() == 0 {
        assert(set_of(s) =~= Set::<(int, int)>::empty());
        reveal(count8);
    } else {
        let s0 = s.drop_last();
        let e = s.last();
        assert(nodup(s0)) by {
            assert forall|k1: int, k2: int|
                #![trigger s0[k1], s0[k2]]
                0 <= k1 < k2 < s0.len() implies s0[k1] != s0[k2] by {
                assert(s[k1] != s[k2]);
            }
        }
        lemma_adj_count_set(s0, c);
        assert(!set_of(s0).contains(e)) by {
            if set_of(s0).contains(e) {
                let k = choose|k: int| 0 <= k < s0.len() && #[trigger] s0[k] == e;
                assert(s[k] == s[s.len() - 1]);
            }
        }
        lemma_count8_insert(set_of(s0), e, c.0, c.1);
        assert(set_of(s) =~= set_of(s0).insert(e)) by {
            assert forall|q: (int, int)| set_of(s).contains(q) implies set_of(s0).insert(
                e,
            ).contains(q) by {
                let k = choose|k: int| 0 <= k < s.len() && #[trigger] s[k] == q;
                if k < s.len() - 1 {
                    assert(s0[k] == q);
                } else {
                    assert(q == e);
                }
            }
            assert forall|q: (int, int)| set_of(s0).insert(e).contains(q) implies set_of(
                s,
            ).contains(q) by {
                if q == e {
                    assert(s[s.len() - 1] == q);
                } else {
                    let k = choose|k: int| 0 <= k < s0.len() && #[trigger] s0[k] == q;
                    assert(s[k] == q);
                }
            }
        }
    }
}

/// Over a duplicate-free sequence, the adjacency count never exceeds the
/// eight neighbouring positions.
pub proof fn lemma_adj_count_bound(s: Seq<(int, int)>, c: (int, int))
    requires
        nodup(s),
    ensures
        0 <= adj_count(s, c) <= 8,
{
    lemma_adj_count_set(s, c);
    lemma_count8_bounds(set_of(s), c.0, c.1);
}

/// Adjacency counts add up over concatenation: the merge of two partial
/// counts by summation is exact, whatever the split.
pub proof fn lemma_adj_count_concat(s1: Seq<(int, int)>, s2: Seq<(int, int)>, c: (int, int))
    ensures
        adj_count(s1 + s2, c) == adj_count(s1, c) + adj_count(s2, c),
    decreases s2.len(),
{
    if s2.len() == 0 {
        assert(s1 + s2 =~= s1);
    } else {
        lemma_adj_count_concat(s1, s2.drop_last(), c);
        assert((s1 + s2).drop_last() =~= s1 + s2.drop_last());
        assert((s1 + s2).last() == s2.last());
    }
}

/// The coordinate a counts-table entry is keyed by.
pub open spec fn ckey(e: ((i64, i64), u8)) -> (int, int) {
    (e.0.0 as int, e.0.1 as int)
}

/// No coordinate is keyed twice in the counts table.
pub open spec fn keys_unique(e: Seq<((i64, i64), u8)>) -> bool {
    forall|k1: int, k2: int|
        #![trigger e[k1], e[k2]]
        0 <= k1 < k2 < e.len() ==> ckey(e[k1]) != ckey(e[k2])
}

/// Whether the counts table has an entry for the coordinate.
pub open spec fn has_key(e: Seq<((i64, i64), u8)>, c: (int, int)) -> bool {
    exists|k: int| 0 <= k < e.len() && ckey(#[trigger] e[k]) == c
}

/// Every entry of the counts table is keyed once and holds that
/// coordinate's positive adjacency count over `s`.
pub open spec fn entries_exact(e: Seq<((i64, i64), u8)>, s: Seq<(int, int)>) -> bool {
    &&& keys_unique(e)
    &&& forall|k: int|
        0 <= k < e.len() ==> 0 < (#[trigger] e[k]).1 && e[k].1 as int == adj_count(s, ckey(e[k]))
}

/// A counts table is the neighbour-count aggregation of a live-cell
/// sequence when its entries are exact and every representable coordinate
/// with a positive adjacency count has an entry.
pub open spec fn counts_ok(e: Seq<((i64, i64), u8)>, s: Seq<(int, int)>) -> bool {
    &&& entries_exact(e, s)
    &&& forall|c: (int, int)|
        in_i64_range(c) && #[trigger] adj_count(s, c) > 0 ==> has_key(e, c)
}

/// Appending an entry keys exactly the old coordinates plus the new one.
pub proof fn lemma_has_key_push(e: Seq<((i64, i64), u8)>, x: ((i64, i64), u8), c: (int, int))
    ensures
        has_key(e.push(x), c) == (has_key(e, c) || ckey(x) == c),
{
    if has_key(e, c) {
        let k = choose|k: int| 0 <= k < e.len() && ckey(#[trigger] e[k]) == c;
        assert(ckey(e.push(x)[k]) == c);
    }
    if ckey(x) == c {
        assert(ckey(e.push(x)[e.len() as int]) == c);
    }
    if has_key(e.push(x), c) && ckey(x) != c {
        let k = choose|k: int| 0 <= k < e.push(x).len() && ckey(#[trigger] e.push(x)[k]) == c;
        assert(ckey(e[k]) == c);
    }
}

/// Adds `v` to the count recorded for `(cx, cy)`, or starts it at `v`:
/// the per-key summation that merging partial counts relies on.
#[verifier::loop_isolation(false)]
fn add_count(acc: &mut Vec<((i64, i64), u8)>, cx: i64, cy: i64, v: u8)
    requires
        keys_unique(old(acc)@),
        forall|k: int|
            0 <= k < old(acc)@.len() && ckey(#[trigger] old(acc)@[k]) == (cx as int, cy as int)
                ==> old(acc)@[k].1 + v <= 8,
    ensures
        keys_unique(final(acc)@),
        has_key(old(acc)@, (cx as int, cy as int)) ==> {
            &&& final(acc)@.len() == old(acc)@.len()
            &&& forall|k: int|
                0 <= k < old(acc)@.len() ==> if ckey(#[trigger] old(acc)@[k]) == (
                    cx as int,
                    cy as int,
                ) {
                    final(acc)@[k].0 == old(acc)@[k].0 && final(acc)@[k].1 as int == old(
                        acc,
                    )@[k].1 as int + v
                } else {
                    final(acc)@[k] == old(acc)@[k]
                }
        },
        !has_key(old(acc)@, (cx as int, cy as int)) ==> final(acc)@ == old(acc)@.push(
            ((cx, cy), v),
        ),
{
    let n = acc.len();
    let mut i: usize = 0;
    while i < n
        invariant
            n == acc@.len(),
            i <= n,
            acc@ == old(acc)@,
            forall|k: int| 0 <= k < i ==> ckey(#[trigger] acc@[k]) != (cx as int, cy as int),
        decreases n - i,
    {
        let e = acc[i];
        if e.0.0 == cx && e.0.1 == cy {
            acc[i] = ((cx, cy), e.1 + v);
            proof {
                assert(has_key(old(acc)@, (cx as int, cy as int))) by {
                    assert(ckey(old(acc)@[i as int]) == (cx as int, cy as int));
                }
                assert forall|k1: int, k2: int|
                    #![trigger acc@[k1], acc@[k2]]
                    0 <= k1 < k2 < acc@.len() implies ckey(acc@[k1]) != ckey(acc@[k2]) by {
                    assert(ckey(old(acc)@[k1]) != ckey(old(acc)@[k2]));
                }
            }
            return ;
        }
        i = i + 1;
    }
    proof {
        assert(!has_key(acc@, (cx as int, cy as int)));
    }
    acc.push(((cx, cy), v));
    proof {
        assert forall|k1: int, k2: int|
            #![trigger acc@[k1], acc@[k2]]
            0 <= k1 < k2 < acc@.len() implies ckey(acc@[k1]) != ckey(acc@[k2]) by {
            if k2 < acc@.len() - 1 {
                assert(ckey(old(acc)@[k1]) != ckey(old(acc)@[k2]));
            } else {
                assert(ckey(old(acc)@[k1]) != (cx as int, cy as int));
            }
        }
    }
}

/// A cell adjacent to `c` makes the adjacency count positive.
pub proof fn lemma_adj_count_pos(s: Seq<(int, int)>, c: (int, int), k: int)
    requires
        0 <= k < s.len(),
        adj(s[k], c),
    ensures
        adj_count(s, c) > 0,
    decreases s.len(),
{
    lemma_adj_count_nonneg(s.drop_last(), c);
    if k < s.len() - 1 {
        lemma_adj_count_pos(s.drop_last(), c, k);
    }
}

/// A positive adjacency count names an adjacent cell.
pub proof fn lemma_adj_count_pos_inv(s: Seq<(int, int)>, c: (int, int))
    requires
        adj_count(s, c) > 0,
    ensures
        exists|k: int| 0 <= k < s.len() && adj(#[trigger] s[k], c),
    decreases s.len(),
{
    if s.len() > 0 {
        if adj(s.last(), c) {
            assert(adj(s[s.len() - 1], c));
        } else {
            lemma_adj_count_pos_inv(s.drop_last(), c);
            let k = choose|k: int| 0 <= k < s.drop_last().len() && adj(#[trigger] s.drop_last()[k], c);
            assert(adj(s[k], c));
        }
    }
}

/// Whether the two cells are adjacent; safe at the very edge of the
/// coordinate range, where an offset would wrap.
fn is_adjacent(ax: i64, ay: i64, bx: i64, by: i64) -> (r: bool)
    ensures
        r == adj((ax as int, ay as int), (bx as int, by as int)),
{
    let dx_ok = ax == bx || (bx > i64::MIN && ax == bx - 1) || (bx < i64::MAX && ax == bx + 1);
    let dy_ok = ay == by || (by > i64::MIN && ay == by - 1) || (by < i64::MAX && ay == by + 1);
    dx_ok && dy_ok && !(ax == bx && ay == by)
}

/// Counts, among the live cells with index in `[from, to)`, those
/// adjacent to `(cx, cy)`.
#[verifier::loop_isolation(false)]
fn count_adjacent(live: &Vec<(i64, i64)>, from: usize, to: usize, cx: i64, cy: i64) -> (r: u8)
    requires
        from <= to <= live@.len(),
        nodup(iseq(live@).subrange(from as int, to as int)),
    ensures
        r as int == adj_count(
            iseq(live@).subrange(from as int, to as int),
            (cx as int, cy as int),
        ),
{
    let ghost s = iseq(live@).subrange(from as int, to as int);
    let ghost c = (cx as int, cy as int);
    let mut cnt: u8 = 0;
    let mut i: usize = from;
    proof {
        assert(s.take(0) =~= Seq::<(int, int)>::empty());
    }
    while i < to
        invariant
            from <= i <= to,
            cnt as int == adj_count(s.take(i - from), c),
        decreases to - i,
    {
        let l = live[i];
        proof {
            assert(s.take(i + 1 - from) =~= s.take(i - from).push(ipair(l)));
            lemma_adj_count_push(s.take(i - from), ipair(l), c);
            assert(nodup(s.take(i + 1 - from))) by {
                assert forall|k1: int, k2: int|
                    #![trigger s.take(i + 1 - from)[k1], s.take(i + 1 - from)[k2]]
                    0 <= k1 < k2 < s.take(i + 1 - from).len() implies s.take(i + 1 - from)[k1]
                    != s.take(i + 1 - from)[k2] by {
                    assert(s[k1] != s[k2]);
                }
            }
            lemma_adj_count_bound(s.take(i + 1 - from), c);
        }
        if is_adjacent(l.0, l.1, cx, cy) {
            cnt = cnt + 1;
        }
        i = i + 1;
    }
    proof {
        assert(s.take(to - from) =~= s);
    }
    cnt
}

/// Whether the counts table already has an entry for `(cx, cy)`.
#[verifier::loop_isolation(false)]
fn contains_key(acc: &Vec<((i64, i64), u8)>, cx: i64, cy: i64) -> (r: bool)
    ensures
        r == has_key(acc@, (cx as int, cy as int)),
{
    let mut i: usize = 0;
    while i < acc.len()
        invariant
            i <= acc@.len(),
            forall|k: int| 0 <= k < i ==> ckey(#[trigger] acc@[k]) != (cx as int, cy as int),
        decreases acc@.len() - i,
    {
        let e = acc[i];
        if e.0.0 == cx && e.0.1 == cy {
            proof {
                assert(ckey(acc@[i as int]) == (cx as int, cy as int));
            }
            return true;
        }
        i = i + 1;
    }
    false
}

/// Ensures the counts table has an entry for the candidate `(cx, cy)`,
/// counting its adjacent live cells on first sight.
#[verifier::loop_isolation(false)]
fn record_candidate(
    acc: &mut Vec<((i64, i64), u8)>,
    live: &Vec<(i64, i64)>,
    from: usize,
    to: usize,
    cx: i64,
    cy: i64,
)
    requires
        from <= to <= live@.len(),
        nodup(iseq(live@).subrange(from as int, to as int)),
        entries_exact(old(acc)@, iseq(live@).subrange(from as int, to as int)),
        adj_count(iseq(live@).subrange(from as int, to as int), (cx as int, cy as int)) > 0,
    ensures
        entries_exact(final(acc)@, iseq(live@).subrange(from as int, to as int)),
        has_key(final(acc)@, (cx as int, cy as int)),
        forall|c: (int, int)| #[trigger] has_key(old(acc)@, c) ==> has_key(final(acc)@, c),
{
    let ghost s = iseq(live@).subrange(from as int, to as int);
    let ghost cc = (cx as int, cy as int);
    if !contains_key(acc, cx, cy) {
        let n = count_adjacent(live, from, to, cx, cy);
        proof {
            lemma_adj_count_bound(s, cc);
        }
        acc.push(((cx, cy), n));
        proof {
            assert forall|k1: int, k2: int|
                #![trigger acc@[k1], acc@[k2]]
                0 <= k1 < k2 < acc@.len() implies ckey(acc@[k1]) != ckey(acc@[k2]) by {
                if k2 < acc@.len() - 1 {
                    assert(ckey(old(acc)@[k1]) != ckey(old(acc)@[k2]));
                } else {
                    assert(ckey(old(acc)@[k1]) != cc);
                }
            }
            assert(ckey(acc@[acc@.len() - 1]) == cc);
            assert forall|c: (int, int)| #[trigger] has_key(old(acc)@, c) implies has_key(
                acc@,
                c,
            ) by {
                lemma_has_key_push(old(acc)@, ((cx, cy), n), c);
            }
        }
    }
}

/// Builds the neighbour-count table of the live cells with index in
/// `[from, to)`: one entry per candidate neighbour coordinate, each
/// holding the number of those live cells adjacent to it.
#[verifier::loop_isolation(false)]
#[verifier::rlimit(100)]
fn aggregate_range(live: &Vec<(i64, i64)>, from: usize, to: usize) -> (r: Vec<((i64, i64), u8)>)
    requires
        from <= to <= live@.len(),
        nodup(iseq(live@).subrange(from as int, to as int)),
    ensures
        counts_ok(r@, iseq(live@).subrange(from as int, to as int)),
{
    let ghost s = iseq(live@).subrange(from as int, to as int);
    let mut acc: Vec<((i64, i64), u8)> = Vec::new();
    let mut idx: usize = from;
    while idx < to
        invariant
            from <= idx <= to,
            entries_exact(acc@, s),
            forall|k: int, c: (int, int)|
                #![trigger adj(s[k], c)]
                0 <= k < idx - from && in_i64_range(c) && adj(s[k], c) ==> has_key(acc@, c),
        decreases to - idx,
    {
        let l = live[idx];
        let ghost p = ipair(l);
        let ghost a0 = acc@;
        proof {
            assert(s[idx - from] == p);
        }
        if l.0 > i64::MIN && l.1 > i64::MIN {
            proof {
                lemma_adj_count_pos(s, (p.0 - 1, p.1 - 1), idx - from);
            }
            record_candidate(&mut acc, live, from, to, l.0 - 1, l.1 - 1);
        }
        if l.0 > i64::MIN {
            proof {
                lemma_adj_count_pos(s, (p.0 - 1, p.1), idx - from);
            }
            record_candidate(&mut acc, live, from, to, l.0 - 1, l.1);
        }
        if l.0 > i64::MIN && l.1 < i64::MAX {
            proof {
                lemma_adj_count_pos(s, (p.0 - 1, p.1 + 1), idx - from);
            }
            record_candidate(&mut acc, live, from, to, l.0 - 1, l.1 + 1);
        }
        if l.1 > i64::MIN {
            proof {
                lemma_adj_count_pos(s, (p.0, p.1 - 1), idx - from);
            }
            record_candidate(&mut acc, live, from, to, l.0, l.1 - 1);
        }
        if l.1 < i64::MAX {
            proof {
                lemma_adj_count_pos(s, (p.0, p.1 + 1), idx - from);
            }
            record_candidate(&mut acc, live, from, to, l.0, l.1 + 1);
        }
        if l.0 < i64::MAX && l.1 > i64::MIN {
            proof {
                lemma_adj_count_pos(s, (p.0 + 1, p.1 - 1), idx - from);
            }
            record_candidate(&mut acc, live, from, to, l.0 + 1, l.1 - 1);
        }
        if l.0 < i64::MAX {
            proof {
                lemma_adj_count_pos(s, (p.0 + 1, p.1), idx - from);
            }
            record_candidate(&mut acc, live, from, to, l.0 + 1, l.1);
        }
        if l.0 < i64::MAX && l.1 < i64::MAX {
            proof {
                lemma_adj_count_pos(s, (p.0 + 1, p.1 + 1), idx - from);
            }
            record_candidate(&mut acc, live, from, to, l.0 + 1, l.1 + 1);
        }
        proof {
            assert forall|k: int, c: (int, int)|
                #![trigger adj(s[k], c)]
                0 <= k < idx + 1 - from && in_i64_range(c) && adj(s[k], c) implies has_key(
                acc@,
                c,
            ) by {
                if k < idx - from {
                    assert(has_key(a0, c));
                }
            }
        }
        idx = idx + 1;
    }
    proof {
        assert forall|c: (int, int)| in_i64_range(c) && #[trigger] adj_count(s, c)
            > 0 implies has_key(acc@, c) by {
            lemma_adj_count_pos_inv(s, c);
            let k = choose|k: int| 0 <= k < s.len() && adj(#[trigger] s[k], c);
        }
    }
    acc
}

/// Builds the neighbour-count table of the whole live-cell list in one
/// pass: the single-threaded aggregation.
pub fn neighbour_counts(live: &Vec<(i64, i64)>) -> (r: Vec<((i64, i64), u8)>)
    requires
        nodup(iseq(live@)),
    ensures
        counts_ok(r@, iseq(live@)),
{
    proof {
        assert(iseq(live@).subrange(0, live@.len() as int) =~= iseq(live@));
    }
    aggregate_range(live, 0, live.len())
}

/// Merges a partial counts table into the accumulator by per-key
/// summation.  Adjacency counts add up over concatenation, so plain
/// summation is exact whatever the split.
#[verifier::loop_isolation(false)]
#[verifier::rlimit(100)]
fn merge(
    acc: &mut Vec<((i64, i64), u8)>,
    part: &Vec<((i64, i64), u8)>,
    Ghost(s1): Ghost<Seq<(int, int)>>,
    Ghost(s2): Ghost<Seq<(int, int)>>,
)
    requires
        counts_ok(old(acc)@, s1),
        counts_ok(part@, s2),
        nodup(s1 + s2),
    ensures
        counts_ok(final(acc)@, s1 + s2),
{
    let mut j: usize = 0;
    proof {
        assert(part@.take(0) =~= Seq::<((i64, i64), u8)>::empty());
    }
    while j < part.len()
        invariant
            j <= part@.len(),
            keys_unique(acc@),
            forall|k: int|
                0 <= k < acc@.len() ==> 0 < (#[trigger] acc@[k]).1 && acc@[k].1 as int
                    == adj_count(s1, ckey(acc@[k])) + if has_key(
                    part@.take(j as int),
                    ckey(acc@[k]),
                ) {
                    adj_count(s2, ckey(acc@[k]))
                } else {
                    0int
                },
            forall|c: (int, int)|
                in_i64_range(c) && #[trigger] adj_count(s1, c) > 0 ==> has_key(acc@, c),
            forall|c: (int, int)|
                #[trigger] has_key(part@.take(j as int), c) ==> has_key(acc@, c),
        decreases part@.len() - j,
    {
        let pe = part[j];
        let ghost c = ckey(pe);
        let ghost a0 = acc@;
        proof {
            assert(part@[j as int] == pe);
            assert(0 < pe.1 && pe.1 as int == adj_count(s2, c));
            assert(!has_key(part@.take(j as int), c)) by {
                if has_key(part@.take(j as int), c) {
                    let k = choose|k: int|
                        0 <= k < j && ckey(#[trigger] part@.take(j as int)[k]) == c;
                    assert(ckey(part@[k]) == ckey(part@[j as int]));
                }
            }
            lemma_adj_count_concat(s1, s2, c);
            lemma_adj_count_bound(s1 + s2, c);
            lemma_adj_count_nonneg(s1, c);
            lemma_adj_count_nonneg(s2, c);
        }
        add_count(acc, pe.0.0, pe.0.1, pe.1);
        proof {
            assert(part@.take(j + 1) =~= part@.take(j as int).push(pe));
            if !has_key(a0, c) {
                // the candidate was only in the chunk: its count over the
                // earlier cells is zero
                assert(adj_count(s1, c) == 0);
                assert(ckey(acc@[acc@.len() - 1]) == c);
            }
            assert forall|k: int|
                0 <= k < acc@.len() implies 0 < (#[trigger] acc@[k]).1 && acc@[k].1 as int
                    == adj_count(s1, ckey(acc@[k])) + if has_key(
                    part@.take(j + 1),
                    ckey(acc@[k]),
                ) {
                    adj_count(s2, ckey(acc@[k]))
                } else {
                    0int
                } by {
                lemma_has_key_push(part@.take(j as int), pe, ckey(acc@[k]));
                if k < a0.len() {
                    assert(0 < a0[k].1 && a0[k].1 as int == adj_count(s1, ckey(a0[k]))
                        + if has_key(part@.take(j as int), ckey(a0[k])) {
                        adj_count(s2, ckey(a0[k]))
                    } else {
                        0int
                    });
                }
            }
            assert forall|c2: (int, int)|
                in_i64_range(c2) && #[trigger] adj_count(s1, c2) > 0 implies has_key(
                acc@,
                c2,
            ) by {
                assert(has_key(a0, c2));
                if !has_key(a0, c) {
                    lemma_has_key_push(a0, ((pe.0.0, pe.0.1), pe.1), c2);
                }
            }
            assert forall|c2: (int, int)| #[trigger] has_key(
                part@.take(j + 1),
                c2,
            ) implies has_key(acc@, c2) by {
                lemma_has_key_push(part@.take(j as int), pe, c2);
                if has_key(part@.take(j as int), c2) {
                    assert(has_key(a0, c2));
                }
                if !has_key(a0, c) {
                    lemma_has_key_push(a0, ((pe.0.0, pe.0.1), pe.1), c2);
                }
            }
        }
        j = j + 1;
    }
    proof {
        assert(part@.take(part@.len() as int) =~= part@);
        assert forall|k: int| 0 <= k < acc@.len() implies 0 < (#[trigger] acc@[k]).1
            && acc@[k].1 as int == adj_count(s1 + s2, ckey(acc@[k])) by {
            lemma_adj_count_concat(s1, s2, ckey(acc@[k]));
            if !has_key(part@, ckey(acc@[k])) {
                lemma_adj_count_nonneg(s2, ckey(acc@[k]));
            }
        }
        assert forall|c: (int, int)| in_i64_range(c) && #[trigger] adj_count(s1 + s2, c)
            > 0 implies has_key(acc@, c) by {
            lemma_adj_count_concat(s1, s2, c);
            lemma_adj_count_nonneg(s1, c);
            lemma_adj_count_nonneg(s2, c);
        }
    }
}

/// Builds the neighbour-count table by splitting the live-cell list into
/// chunks, aggregating each chunk on its own, and merging the partial
/// tables by per-key summation: the chunked counterpart of
/// [`neighbour_counts`], suitable for handing one chunk to each worker.
#[verifier::loop_isolation(false)]
pub fn neighbour_counts_chunked(live: &Vec<(i64, i64)>, chunk: usize) -> (r: Vec<
    ((i64, i64), u8),
>)
    requires
        1 <= chunk,
        nodup(iseq(live@)),
    ensures
        counts_ok(r@, iseq(live@)),
{
    let ghost s = iseq(live@);
    let mut acc: Vec<((i64, i64), u8)> = Vec::new();
    proof {
        assert(s.take(0) =~= Seq::<(int, int)>::empty());
    }
    let mut i: usize = 0;
    while i < live.len()
        invariant
            i <= live@.len(),
            counts_ok(acc@, s.take(i as int)),
        decreases live@.len() - i,
    {
        let rem = live.len() - i;
        let step = if rem < chunk {
            rem
        } else {
            chunk
        };
        let end = i + step;
        proof {
            assert(s.take(i as int) + s.subrange(i as int, end as int) =~= s.take(end as int));
            assert(nodup(s.take(end as int))) by {
                assert forall|k1: int, k2: int|
                    #![trigger s.take(end as int)[k1], s.take(end as int)[k2]]
                    0 <= k1 < k2 < s.take(end as int).len() implies s.take(end as int)[k1]
                    != s.take(end as int)[k2] by {
                    assert(s[k1] != s[k2]);
                }
            }
            assert(nodup(s.subrange(i as int, end as int))) by {
                assert forall|k1: int, k2: int|
                    #![trigger s.subrange(i as int, end as int)[k1], s.subrange(i as int, end as int)[k2]]
                    0 <= k1 < k2 < s.subrange(i as int, end as int).len() implies s.subrange(
                    i as int,
                    end as int,
                )[k1] != s.subrange(i as int, end as int)[k2] by {
                    assert(s[i + k1] != s[i + k2]);
                }
            }
        }
        let part = aggregate_range(live, i, end);
        merge(&mut acc, &part, Ghost(s.take(i as int)), Ghost(s.subrange(i as int, end as int)));
        i = end;
    }
    proof {
        assert(s.take(live@.len() as int) =~= s);
    }
    acc
}

/// A sparse colony: the list of live coordinates, each held once, on the
/// plane bounded only by the coordinate type.
#[derive(Clone, PartialEq, Eq, Debug)]
pub struct SparseColony {
    pub cells: Vec<(i64, i64)>,
}

impl SparseColony {
    /// The set of live coordinates.
    pub open spec fn live_set(self) -> Set<(int, int)> {
        set_of(iseq(self.cells@))
    }

    /// The live-cell list, as coordinates.
    pub open spec fn live_seq(self) -> Seq<(int, int)> {
        iseq(self.cells@)
    }

    /// The colony invariant: no coordinate is held twice.
    pub open spec fn wf(self) -> bool {
        nodup(iseq(self.cells@))
    }

    /// An empty colony: every cell dead.
    pub fn new() -> (r: SparseColony)
        ensures
            r.wf(),
            r.live_set() == Set::<(int, int)>::empty(),
    {
        let r = SparseColony { cells: Vec::new() };
        proof {
            assert(r.live_set() =~= Set::<(int, int)>::empty());
        }
        r
    }

    /// Whether the cell at `(x, y)` is alive.
    #[verifier::loop_isolation(false)]
    pub fn is_alive(&self, x: i64, y: i64) -> (r: bool)
        ensures
            r == self.live_set().contains((x as int, y as int)),
    {
        let n = self.cells.len();
        let mut i: usize = 0;
        while i < n
            invariant
                i <= n,
                forall|k: int|
                    0 <= k < i ==> ipair(#[trigger] self.cells@[k]) != (x as int, y as int),
            decreases n - i,
        {
            let l = self.cells[i];
            if l.0 == x && l.1 == y {
                proof {
                    assert(iseq(self.cells@)[i as int] == (x as int, y as int));
                }
                return true;
            }
            i = i + 1;
        }
        proof {
            if self.live_set().contains((x as int, y as int)) {
                let k = choose|k: int|
                    0 <= k < iseq(self.cells@).len() && #[trigger] iseq(self.cells@)[k] == (
                        x as int,
                        y as int,
                    );
                assert(ipair(self.cells@[k]) == (x as int, y as int));
            }
        }
        false
    }

    /// Makes the cell at `(x, y)` alive; a no-op when it is alive
    /// already.
    pub fn make_alive(&mut self, x: i64, y: i64)
        requires
            old(self).wf(),
        ensures
            final(self).wf(),
            final(self).live_set() == old(self).live_set().insert((x as int, y as int)),
    {
        let ghost p = (x as int, y as int);
        if !self.is_alive(x, y) {
            self.cells.push((x, y));
            proof {
                let s0 = iseq(old(self).cells@);
                let s1 = iseq(self.cells@);
                assert(s1 =~= s0.push(p));
                assert forall|k1: int, k2: int|
                    #![trigger s1[k1], s1[k2]]
                    0 <= k1 < k2 < s1.len() implies s1[k1] != s1[k2] by {
                    if k2 < s1.len() - 1 {
                        assert(s0[k1] != s0[k2]);
                    } else {
                        assert(!old(self).live_set().contains(p));
                        assert(s0[k1] == s1[k1]);
                        if s1[k1] == p {
                            assert(set_of(s0).contains(p));
                        }
                    }
                }
                assert(self.live_set() =~= old(self).live_set().insert(p)) by {
                    assert forall|q: (int, int)| self.live_set().contains(q) implies old(
                        self,
                    ).live_set().insert(p).contains(q) by {
                        let k = choose|k: int| 0 <= k < s1.len() && #[trigger] s1[k] == q;
                        if k < s1.len() - 1 {
                            assert(s0[k] == q);
                        }
                    }
                    assert forall|q: (int, int)| old(self).live_set().insert(p).contains(
                        q,
                    ) implies self.live_set().contains(q) by {
                        if q == p {
                            assert(s1[s1.len() - 1] == q);
                        } else {
                            let k = choose|k: int| 0 <= k < s0.len() && #[trigger] s0[k] == q;
                            assert(s1[k] == q);
                        }
                    }
                }
            }
        } else {
            proof {
                assert(old(self).live_set().insert(p) =~= old(self).live_set());
            }
        }
    }

    /// Makes the cell at `(x, y)` dead; a no-op when it is dead already.
    #[verifier::loop_isolation(false)]
    pub fn make_dead(&mut self, x: i64, y: i64)
        requires
            old(self).wf(),
        ensures
            final(self).wf(),
            final(self).live_set() == old(self).live_set().remove((x as int, y as int)),
    {
        let ghost p = (x as int, y as int);
        let ghost s0 = iseq(old(self).cells@);
        let mut out: Vec<(i64, i64)> = Vec::new();
        let n = self.cells.len();
        let mut i: usize = 0;
        while i < n
            invariant
                i <= n,
                self.cells@ == old(self).cells@,
                forall|k: int|
                    0 <= k < out@.len() ==> ipair(#[trigger] out@[k]) != p,
                forall|k: int|
                    0 <= k < out@.len() ==> exists|t: int|
                        0 <= t < i && #[trigger] out@[k] == self.cells@[t],
                forall|t: int|
                    0 <= t < i && ipair(#[trigger] self.cells@[t]) != p ==> set_of(
                        iseq(out@),
                    ).contains(ipair(self.cells@[t])),
                nodup(iseq(out@)),
            decreases n - i,
        {
            let l = self.cells[i];
            if !(l.0 == x && l.1 == y) {
                let ghost o0 = out@;
                out.push(l);
                proof {
                    assert(iseq(out@) =~= iseq(o0).push(ipair(l)));
                    assert forall|k1: int, k2: int|
                        #![trigger iseq(out@)[k1], iseq(out@)[k2]]
                        0 <= k1 < k2 < iseq(out@).len() implies iseq(out@)[k1] != iseq(
                        out@,
                    )[k2] by {
                        if k2 == iseq(out@).len() - 1 {
                            // the new element came later in a duplicate-free
                            // list, so it differs from everything kept so far
                            let t1 = choose|t: int|
                                0 <= t < i && #[trigger] o0[k1] == self.cells@[t];
                            assert(iseq(self.cells@)[t1] != iseq(self.cells@)[i as int]);
                            assert(iseq(out@)[k1] == ipair(o0[k1]));
                        } else {
                            assert(iseq(o0)[k1] != iseq(o0)[k2]);
                        }
                    }
                    assert forall|t: int|
                        0 <= t < i + 1 && ipair(#[trigger] self.cells@[t]) != p implies set_of(
                        iseq(out@),
                    ).contains(ipair(self.cells@[t])) by {
                        if t < i {
                            assert(set_of(iseq(o0)).contains(ipair(self.cells@[t])));
                            let k = choose|k: int|
                                0 <= k < iseq(o0).len() && #[trigger] iseq(o0)[k] == ipair(
                                    self.cells@[t],
                                );
                            assert(iseq(out@)[k] == ipair(self.cells@[t]));
                        } else {
                            assert(iseq(out@)[iseq(out@).len() - 1] == ipair(self.cells@[t]));
                        }
                    }
                }
            }
            i = i + 1;
        }
        self.cells = out;
        proof {
            assert(self.live_set() =~= old(self).live_set().remove(p)) by {
                assert forall|q: (int, int)| self.live_set().contains(q) implies old(
                    self,
                ).live_set().remove(p).contains(q) by {
                    let k = choose|k: int|
                        0 <= k < iseq(self.cells@).len() && #[trigger] iseq(self.cells@)[k] == q;
                    let t = choose|t: int|
                        0 <= t < n && #[trigger] self.cells@[k] == old(self).cells@[t];
                    assert(iseq(old(self).cells@)[t] == q);
                }
                assert forall|q: (int, int)| old(self).live_set().remove(p).contains(
                    q,
                ) implies self.live_set().contains(q) by {
                    let t = choose|t: int| 0 <= t < s0.len() && #[trigger] s0[t] == q;
                    assert(ipair(old(self).cells@[t]) == q);
                }
            }
        }
    }

    /// The coordinates of every live cell.
    #[verifier::loop_isolation(false)]
    pub fn live_cells(&self) -> (r: Vec<(i64, i64)>)
        ensures
            r@ == self.cells@,
            iseq(r@) == self.live_seq(),
    {
        let mut r: Vec<(i64, i64)> = Vec::new();
        let n = self.cells.len();
        let mut i: usize = 0;
        while i < n
            invariant
                i <= n,
                r@ == self.cells@.take(i as int),
            decreases n - i,
        {
            r.push(self.cells[i]);
            proof {
                assert(self.cells@.take(i + 1) =~= self.cells@.take(i as int).push(
                    self.cells@[i as int],
                ));
            }
            i = i + 1;
        }
        proof {
            assert(self.cells@.take(n as int) =~= self.cells@);
        }
        r
    }

    /// Advances the colony by one generation: recomputes the neighbour
    /// counts from the live set and keeps exactly the cells the rule
    /// keeps or creates.
    #[verifier::loop_isolation(false)]
    #[verifier::rlimit(100)]
    pub fn step(&mut self)
        requires
            old(self).wf(),
        ensures
            final(self).wf(),
            final(self).live_set() == sparse_next(old(self).live_set()),
    {
        let ghost s = iseq(old(self).cells@);
        let ghost l = old(self).live_set();
        let counts = neighbour_counts(&self.cells);
        let mut next: Vec<(i64, i64)> = Vec::new();
        let m = counts.len();
        let mut j: usize = 0;
        while j < m
            invariant
                j <= m,
                self.cells@ == old(self).cells@,
                forall|k: int|
                    0 <= k < next@.len() ==> life_rule(l, ipair(#[trigger] next@[k])),
                forall|k: int|
                    0 <= k < next@.len() ==> has_key(
                        counts@.take(j as int),
                        ipair(#[trigger] next@[k]),
                    ),
                nodup(iseq(next@)),
                forall|t: int|
                    0 <= t < j && (counts@[t].1 == 3 || (counts@[t].1 == 2 && l.contains(
                        ckey(#[trigger] counts@[t]),
                    ))) ==> set_of(iseq(next@)).contains(ckey(counts@[t])),
            decreases m - j,
        {
            let e = counts[j];
            let ghost c = ckey(e);
            proof {
                assert(counts@[j as int] == e);
                lemma_adj_count_set(s, c);
                assert(e.1 as int == adj_count(s, c));
            }
            let keep = e.1 == 3 || (e.1 == 2 && self.is_alive(e.0.0, e.0.1));
            let ghost n0 = next@;
            if keep {
                next.push(e.0);
                proof {
                    assert(iseq(next@) =~= iseq(n0).push(c));
                    assert(ipair(next@[next@.len() - 1]) == c);
                    assert forall|k1: int, k2: int|
                        #![trigger iseq(next@)[k1], iseq(next@)[k2]]
                        0 <= k1 < k2 < iseq(next@).len() implies iseq(next@)[k1] != iseq(
                        next@,
                    )[k2] by {
                        if k2 == iseq(next@).len() - 1 {
                            // the key is new: it was not among the first j
                            // entries, and every kept cell was
                            assert(has_key(counts@.take(j as int), ipair(n0[k1])));
                            let t = choose|t: int|
                                0 <= t < j && ckey(#[trigger] counts@.take(j as int)[t]) == ipair(
                                    n0[k1],
                                );
                            assert(ckey(counts@[t]) != ckey(counts@[j as int]));
                        } else {
                            assert(iseq(n0)[k1] != iseq(n0)[k2]);
                        }
                    }
                    assert forall|k: int| 0 <= k < next@.len() implies has_key(
                        counts@.take(j + 1),
                        ipair(#[trigger] next@[k]),
                    ) by {
                        lemma_has_key_push(counts@.take(j as int), e, ipair(next@[k]));
                        assert(counts@.take(j + 1) =~= counts@.take(j as int).push(e));
                        if k < next@.len() - 1 {
                            assert(has_key(counts@.take(j as int), ipair(n0[k])));
                        }
                    }
                    assert forall|t: int|
                        0 <= t < j + 1 && (counts@[t].1 == 3 || (counts@[t].1 == 2 && l.contains(
                            ckey(#[trigger] counts@[t]),
                        ))) implies set_of(iseq(next@)).contains(ckey(counts@[t])) by {
                        if t < j {
                            let k = choose|k: int|
                                0 <= k < iseq(n0).len() && #[trigger] iseq(n0)[k] == ckey(
                                    counts@[t],
                                );
                            assert(iseq(next@)[k] == ckey(counts@[t]));
                        } else {
                            assert(iseq(next@)[iseq(next@).len() - 1] == c);
                        }
                    }
                }
            } else {
                proof {
                    assert forall|k: int| 0 <= k < next@.len() implies has_key(
                        counts@.take(j + 1),
                        ipair(#[trigger] next@[k]),
                    ) by {
                        lemma_has_key_push(counts@.take(j as int), e, ipair(next@[k]));
                        assert(counts@.take(j + 1) =~= counts@.take(j as int).push(e));
                    }
                }
            }
            j = j + 1;
        }
        self.cells = next;
        proof {
            assert(counts@.take(m as int) =~= counts@);
            assert(self.live_set() =~= sparse_next(l)) by {
                assert forall|q: (int, int)| self.live_set().contains(q) implies sparse_next(
                    l,
                ).contains(q) by {
                    let k = choose|k: int|
                        0 <= k < iseq(self.cells@).len() && #[trigger] iseq(self.cells@)[k] == q;
                }
                assert forall|q: (int, int)| sparse_next(l).contains(q) implies self.live_set(
                ).contains(q) by {
                    lemma_adj_count_set(s, q);
                    assert(adj_count(s, q) > 0);
                    let t = choose|t: int|
                        0 <= t < counts@.len() && ckey(#[trigger] counts@[t]) == q;
                    assert(counts@[t].1 as int == adj_count(s, q));
                }
            }
        }
    }
}

} // verus!

//! The generation-transition engine for the dense colony: a scan phase
//! classifies every cell against the previous generation, an apply phase
//! then flips the collected cells, so that no cell is ever judged against
//! a half-updated neighbour count.

use vstd::prelude::*;

use rand::Rng;

use crate::decay::faded;
use crate::decay::DecayOverlay;
use crate::decay::LIFE_MAX;
use crate::rules::count8;
use crate::rules::dense_next;
use crate::rules::life_rule;
use crate::structs::coord;
use crate::structs::coord_prefix_set;
use crate::structs::lemma_coord_prefix_set_len;
use crate::structs::lemma_listed_push;
use crate::structs::listed;
use crate::structs::Colony;

verus! {

/// Relies on rand::Rng::gen_range over the range `0..n`: a value sampled
/// from that range, hence below `n`; the range is non-empty, so the call
/// does not panic.
#[verifier::external_body]
fn random_below(n: usize) -> (r: usize)
    requires
        0 < n,
    ensures
        r < n,
{
    rand::thread_rng().gen_range(0..n)
}

/// Seeds a colony of the given dimensions from an explicit coordinate
/// list, making each listed cell alive in turn: the deterministic
/// initialiser, for callers that bring their own source of positions.
/// The result is exactly the colony that `Colony::new` followed by one
/// `make_alive` per listed pair builds: its live set is the set of the
/// listed coordinates.
pub fn initialise_with_cells(width: isize, height: isize, cells: &Vec<(usize, usize)>) -> (r:
    Colony)
    requires
        0 < width,
        0 < height,
        forall|k: int|
            0 <= k < cells@.len() ==> (#[trigger] cells@[k]).0 < width as int && cells@[k].1
                < height as int,
    ensures
        r.wf(),
        r.width() == width as int,
        r.height() == height as int,
        r.live_set() == coord_prefix_set(cells@, cells@.len() as int),
{
    let mut colony = Colony::new(width, height);
    apply_births(&mut colony, cells);
    proof {
        assert(colony.live_set() =~= coord_prefix_set(cells@, cells@.len() as int));
    }
    colony
}

/// Seeds a colony of the given dimensions with up to `starting_cells`
/// randomly placed live cells: none when none were asked for, at least
/// one and at most `starting_cells` otherwise (fewer when draws
/// collide).
pub fn initialise(starting_cells: usize, width: isize, height: isize) -> (r: Colony)
    requires
        0 < width,
        0 < height,
    ensures
        r.wf(),
        r.width() == width as int,
        r.height() == height as int,
        r.live_set().finite(),
        r.live_set().len() <= starting_cells,
        starting_cells == 0 ==> r.live_set() == Set::<(int, int)>::empty(),
        starting_cells > 0 ==> r.live_set().len() >= 1,
{
    let mut drawn: Vec<(usize, usize)> = Vec::new();
    let mut k: usize = 0;
    while k < starting_cells
        invariant
            0 < width,
            0 < height,
            k <= starting_cells,
            drawn@.len() == k,
            forall|t: int|
                0 <= t < k ==> (#[trigger] drawn@[t]).0 < width as int && drawn@[t].1
                    < height as int,
        decreases starting_cells - k,
    {
        let x = random_below(width as usize);
        let y = random_below(height as usize);
        drawn.push((x, y));
        k = k + 1;
    }
    let r = initialise_with_cells(width, height, &drawn);
    proof {
        lemma_coord_prefix_set_len(drawn@, drawn@.len() as int);
        if starting_cells == 0 {
            assert(r.live_set() =~= Set::<(int, int)>::empty());
        } else {
            assert(r.live_set().contains(coord(drawn@[0])));
            if r.live_set().len() == 0 {
                r.live_set().lemma_len0_is_empty();
            }
        }
    }
    r
}

/// Scans the colony and collects, against the current generation only,
/// the cells the rule makes alive next and the live cells it kills.
#[verifier::rlimit(100)]
fn classify(colony: &Colony) -> (r: (Vec<(usize, usize)>, Vec<(usize, usize)>))
    requires
        colony.wf(),
    ensures
        forall|k: int|
            0 <= k < r.0@.len() ==> {
                let q = #[trigger] r.0@[k];
                colony.in_bounds(q.0 as int, q.1 as int) && life_rule(colony.live_set(), coord(q))
            },
        forall|k: int|
            0 <= k < r.1@.len() ==> {
                let q = #[trigger] r.1@[k];
                colony.in_bounds(q.0 as int, q.1 as int) && colony.live_set().contains(coord(q))
                    && !life_rule(colony.live_set(), coord(q))
            },
        forall|a: int, b: int|
            0 <= a < colony.width() && 0 <= b < colony.height() && #[trigger] life_rule(
                colony.live_set(),
                (a, b),
            ) ==> listed(r.0@, a as usize, b as usize),
        forall|a: int, b: int|
            #![trigger life_rule(colony.live_set(), (a, b))]
            colony.live_set().contains((a, b)) && !life_rule(colony.live_set(), (a, b))
                ==> listed(r.1@, a as usize, b as usize),
{
    broadcast use lemma_listed_push;

    let ghost l = colony.live_set();
    let mut to_live: Vec<(usize, usize)> = Vec::new();
    let mut to_die: Vec<(usize, usize)> = Vec::new();
    let w = colony.cells.len();
    let mut x: usize = 0;
    while x < w
        invariant
            colony.wf(),
            l == colony.live_set(),
            w as int == colony.width(),
            x <= w,
            forall|k: int|
                0 <= k < to_live@.len() ==> {
                    let q = #[trigger] to_live@[k];
                    colony.in_bounds(q.0 as int, q.1 as int) && life_rule(l, coord(q))
                },
            forall|k: int|
                0 <= k < to_die@.len() ==> {
                    let q = #[trigger] to_die@[k];
                    colony.in_bounds(q.0 as int, q.1 as int) && l.contains(coord(q)) && !life_rule(
                        l,
                        coord(q),
                    )
                },
            forall|a: int, b: int|
                0 <= a < x && 0 <= b < colony.height() && #[trigger] life_rule(l, (a, b))
                    ==> listed(to_live@, a as usize, b as usize),
            forall|a: int, b: int|
                #![trigger life_rule(l, (a, b))]
                0 <= a < x && l.contains((a, b)) && !life_rule(l, (a, b))
                    ==> listed(to_die@, a as usize, b as usize),
        decreases w - x,
    {
        let h = colony.cells[x].len();
        let mut y: usize = 0;
        while y < h
            invariant
                colony.wf(),
                l == colony.live_set(),
                w as int == colony.width(),
                h as int == colony.height(),
                x < w,
                y <= h,
                forall|k: int|
                    0 <= k < to_live@.len() ==> {
                        let q = #[trigger] to_live@[k];
                        colony.in_bounds(q.0 as int, q.1 as int) && life_rule(l, coord(q))
                    },
                forall|k: int|
                    0 <= k < to_die@.len() ==> {
                        let q = #[trigger] to_die@[k];
                        colony.in_bounds(q.0 as int, q.1 as int) && l.contains(coord(q))
                            && !life_rule(l, coord(q))
                    },
                forall|a: int, b: int|
                    0 <= a < x && 0 <= b < colony.height() && #[trigger] life_rule(l, (a, b))
                        ==> listed(to_live@, a as usize, b as usize),
                forall|a: int, b: int|
                    #![trigger life_rule(l, (a, b))]
                    0 <= a < x && l.contains((a, b)) && !life_rule(l, (a, b))
                        ==> listed(to_die@, a as usize, b as usize),
                forall|b: int|
                    0 <= b < y && #[trigger] life_rule(l, (x as int, b)) ==> listed(
                        to_live@,
                        x,
                        b as usize,
                    ),
                forall|b: int|
                    #![trigger life_rule(l, (x as int, b))]
                    0 <= b < y && l.contains((x as int, b)) && !life_rule(l, (x as int, b))
                        ==> listed(to_die@, x, b as usize),
            decreases h - y,
        {
            let st = colony.cells[x][y];
            let ghost tl0 = to_live@;
            let ghost td0 = to_die@;
            proof {
                assert(colony.cell(x as int, y as int) == st);
                assert(st.neighbours as int == count8(l, x as int, y as int));
                assert(l.contains((x as int, y as int)) == st.alive);
            }
            if (st.alive && st.neighbours == 2) || st.neighbours == 3 {
                to_live.push((x, y));
                proof {
                    assert forall|a: int, b: int|
                        0 <= a < x && 0 <= b < colony.height() && #[trigger] life_rule(
                            l,
                            (a, b),
                        ) implies listed(to_live@, a as usize, b as usize) by {
                        lemma_listed_push(tl0, (x, y), a as usize, b as usize);
                    }
                    assert forall|b: int|
                        0 <= b <= y as int && #[trigger] life_rule(l, (x as int, b)) implies listed(
                            to_live@,
                            x,
                            b as usize,
                        ) by {
                        lemma_listed_push(tl0, (x, y), x, b as usize);
                    }
                }
            } else if st.alive {
                to_die.push((x, y));
                proof {
                    assert forall|a: int, b: int|
                        #![trigger life_rule(l, (a, b))]
                        0 <= a < x && l.contains((a, b)) && !life_rule(l, (a, b)) implies listed(
                            to_die@,
                            a as usize,
                            b as usize,
                        ) by {
                        lemma_listed_push(td0, (x, y), a as usize, b as usize);
                    }
                    assert forall|b: int|
                        #![trigger life_rule(l, (x as int, b))]
                        0 <= b <= y as int && l.contains((x as int, b)) && !life_rule(
                            l,
                            (x as int, b),
                        ) implies listed(to_die@, x, b as usize) by {
                        lemma_listed_push(td0, (x, y), x, b as usize);
                    }
                }
            }
            y = y + 1;
        }
        x = x + 1;
    }
    (to_live, to_die)
}

/// Applies one birth for each listed cell, in order.
fn apply_births(colony: &mut Colony, list: &Vec<(usize, usize)>)
    requires
        old(colony).wf(),
        forall|k: int|
            0 <= k < list@.len() ==> {
                let q = #[trigger] list@[k];
                q.0 < old(colony).width() && q.1 < old(colony).height()
            },
    ensures
        final(colony).wf(),
        final(colony).width() == old(colony).width(),
        final(colony).height() == old(colony).height(),
        final(colony).live_set() == old(colony).live_set().union(
            coord_prefix_set(list@, list@.len() as int),
        ),
{
    let ghost l0 = old(colony).live_set();
    let ghost w0 = old(colony).width();
    let ghost h0 = old(colony).height();
    proof {
        assert(l0.union(coord_prefix_set(list@, 0)) =~= l0);
    }
    let mut i: usize = 0;
    while i < list.len()
        invariant
            i <= list@.len(),
            colony.wf(),
            colony.width() == w0,
            colony.height() == h0,
            colony.live_set() == l0.union(coord_prefix_set(list@, i as int)),
            forall|k: int|
                0 <= k < list@.len() ==> {
                    let q = #[trigger] list@[k];
                    q.0 < w0 && q.1 < h0
                },
        decreases list@.len() - i,
    {
        let q = list[i];
        colony.make_alive(q.0, q.1);
        proof {
            assert(colony.live_set() =~= l0.union(coord_prefix_set(list@, i + 1)));
        }
        i = i + 1;
    }
}

/// Applies one death for each listed cell, in order.
fn apply_deaths(colony: &mut Colony, list: &Vec<(usize, usize)>)
    requires
        old(colony).wf(),
        forall|k: int|
            0 <= k < list@.len() ==> {
                let q = #[trigger] list@[k];
                q.0 < old(colony).width() && q.1 < old(colony).height()
            },
    ensures
        final(colony).wf(),
        final(colony).width() == old(colony).width(),
        final(colony).height() == old(colony).height(),
        final(colony).live_set() == old(colony).live_set().difference(
            coord_prefix_set(list@, list@.len() as int),
        ),
{
    let ghost l0 = old(colony).live_set();
    let ghost w0 = old(colony).width();
    let ghost h0 = old(colony).height();
    proof {
        assert(l0.difference(coord_prefix_set(list@, 0)) =~= l0);
    }
    let mut i: usize = 0;
    while i < list.len()
        invariant
            i <= list@.len(),
            colony.wf(),
            colony.width() == w0,
            colony.height() == h0,
            colony.live_set() == l0.difference(coord_prefix_set(list@, i as int)),
            forall|k: int|
                0 <= k < list@.len() ==> {
                    let q = #[trigger] list@[k];
                    q.0 < w0 && q.1 < h0
                },
        decreases list@.len() - i,
    {
        let q = list[i];
        colony.make_dead(q.0, q.1);
        proof {
            assert(colony.live_set() =~= l0.difference(coord_prefix_set(list@, i + 1)));
        }
        i = i + 1;
    }
}

/// The births of one generation cover exactly the next live set: joining
/// them onto the old one yields the old set united with the next.
proof fn lemma_union_of_births(l0: Set<(int, int)>, w: int, h: int, s: Seq<(usize, usize)>)
    requires
        w <= usize::MAX,
        h <= usize::MAX,
        forall|k: int|
            0 <= k < s.len() ==> {
                let q = #[trigger] s[k];
                0 <= q.0 < w && 0 <= q.1 < h && life_rule(l0, coord(q))
            },
        forall|a: int, b: int|
            0 <= a < w && 0 <= b < h && #[trigger] life_rule(l0, (a, b)) ==> listed(
                s,
                a as usize,
                b as usize,
            ),
    ensures
        l0.union(coord_prefix_set(s, s.len() as int)) == l0.union(dense_next(l0, w, h)),
{
    let ps = coord_prefix_set(s, s.len() as int);
    let ln = dense_next(l0, w, h);
    assert forall|q: (int, int)| ps.contains(q) implies ln.contains(q) by {
        let k = choose|k: int| 0 <= k < s.len() && coord(#[trigger] s[k]) == q;
        assert(life_rule(l0, coord(s[k])));
    }
    assert forall|q: (int, int)| ln.contains(q) implies l0.union(ps).contains(q) by {
        assert(life_rule(l0, (q.0, q.1)));
        assert(listed(s, q.0 as usize, q.1 as usize));
        let k = choose|k: int|
            0 <= k < s.len() && #[trigger] s[k] == ((q.0 as usize, q.1 as usize));
        assert(coord(s[k]) == q);
    }
    assert(l0.union(ps) =~= l0.union(ln));
}

/// The deaths of one generation remove exactly what the rule does not
/// keep: taking them out of the joined set leaves the next live set.
proof fn lemma_difference_of_deaths(l0: Set<(int, int)>, w: int, h: int, s: Seq<(usize, usize)>)
    requires
        w <= usize::MAX,
        h <= usize::MAX,
        forall|p: (int, int)| #[trigger] l0.contains(p) ==> 0 <= p.0 < w && 0 <= p.1 < h,
        forall|k: int|
            0 <= k < s.len() ==> {
                let q = #[trigger] s[k];
                l0.contains(coord(q)) && !life_rule(l0, coord(q))
            },
        forall|a: int, b: int|
            #![trigger life_rule(l0, (a, b))]
            l0.contains((a, b)) && !life_rule(l0, (a, b)) ==> listed(s, a as usize, b as usize),
    ensures
        l0.union(dense_next(l0, w, h)).difference(coord_prefix_set(s, s.len() as int))
            == dense_next(l0, w, h),
{
    let ln = dense_next(l0, w, h);
    let ds = coord_prefix_set(s, s.len() as int);
    assert forall|q: (int, int)| l0.union(ln).difference(ds).contains(q) implies ln.contains(
        q,
    ) by {
        if !ln.contains(q) {
            assert(l0.contains((q.0, q.1)));
            assert(!life_rule(l0, (q.0, q.1)));
            assert(listed(s, q.0 as usize, q.1 as usize));
            let k = choose|k: int|
                0 <= k < s.len() && #[trigger] s[k] == ((q.0 as usize, q.1 as usize));
            assert(coord(s[k]) == q);
            assert(ds.contains(q));
        }
    }
    assert forall|q: (int, int)| ln.contains(q) implies l0.union(ln).difference(ds).contains(
        q,
    ) by {
        assert(life_rule(l0, (q.0, q.1)));
        if ds.contains(q) {
            let k = choose|k: int| 0 <= k < s.len() && coord(#[trigger] s[k]) == q;
            assert(!life_rule(l0, coord(s[k])));
        }
    }
    assert(l0.union(ln).difference(ds) =~= ln);
}

/// Advances the colony by one generation of the transition rule.  The
/// whole scan reads the previous generation; the collected classification
/// is applied only afterwards, births before deaths.
#[verifier::rlimit(100)]
pub fn process_frame(colony: &mut Colony)
    requires
        old(colony).wf(),
    ensures
        final(colony).wf(),
        final(colony).width() == old(colony).width(),
        final(colony).height() == old(colony).height(),
        final(colony).live_set() == dense_next(
            old(colony).live_set(),
            old(colony).width(),
            old(colony).height(),
        ),
{
    let ghost c0 = *old(colony);
    let ghost l0 = c0.live_set();
    let ghost lnext = dense_next(l0, c0.width(), c0.height());
    let w = colony.cells.len();
    let h = colony.cells[0].len();
    let (to_live, to_die) = classify(colony);
    apply_births(colony, &to_live);
    proof {
        lemma_union_of_births(l0, c0.width(), c0.height(), to_live@);
    }
    apply_deaths(colony, &to_die);
    proof {
        assert forall|p: (int, int)| #[trigger] l0.contains(p) implies 0 <= p.0 < c0.width()
            && 0 <= p.1 < c0.height() by {}
        lemma_difference_of_deaths(l0, c0.width(), c0.height(), to_die@);
    }
}

/// Advances the colony and its decay overlay together: the decay
/// variant of the transition.  Cells dead before the step fade first,
/// then the colony steps, then every cell of the new generation that is
/// alive shines at the maximum.  A cell that dies this generation keeps
/// its counter until the next one, and the overlay never feeds back
/// into the classification.
pub fn step_with_decay(colony: &mut Colony, overlay: &mut DecayOverlay)
    requires
        old(colony).wf(),
        old(overlay).wf(),
        old(overlay).width() == old(colony).width(),
        old(overlay).height() == old(colony).height(),
    ensures
        final(colony).wf(),
        final(colony).width() == old(colony).width(),
        final(colony).height() == old(colony).height(),
        final(colony).live_set() == dense_next(
            old(colony).live_set(),
            old(colony).width(),
            old(colony).height(),
        ),
        final(overlay).wf(),
        final(overlay).width() == old(overlay).width(),
        final(overlay).height() == old(overlay).height(),
        forall|a: int, b: int|
            old(overlay).in_bounds(a, b) ==> #[trigger] final(overlay).life_at(a, b)
                == if final(colony).cell(a, b).alive {
                LIFE_MAX
            } else if old(colony).cell(a, b).alive {
                old(overlay).life_at(a, b)
            } else {
                faded(old(overlay).life_at(a, b))
            },
{
    overlay.fade_dead(colony);
    process_frame(colony);
    overlay.shine_alive(colony);
}

} // verus!

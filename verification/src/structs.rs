//! The dense colony: a fixed-size grid of per-cell states, each holding a
//! liveness flag and an incrementally maintained live-neighbour count.

use vstd::prelude::*;

use crate::rules::adj;
use crate::rules::count8;
use crate::rules::lemma_count8_insert;
use crate::rules::lemma_count8_remove;
use crate::rules::lemma_count8_slack;

verus! {

/// One cell of a dense colony.  The `neighbours` field caches how many of
/// the cell's up-to-eight grid neighbours are alive; [`Colony::wf`] ties it
/// to the actual live set after every mutation.
#[derive(Clone, Copy, PartialEq, Eq, Structural, Debug)]
pub struct State {
    pub alive: bool,
    pub neighbours: u8,
}

impl State {
    /// Whether the cell is alive.
    pub fn alive(&self) -> (r: bool)
        ensures
            r == self.alive,
    {
        self.alive
    }

    /// The cached live-neighbour count.
    pub fn neighbours(&self) -> (r: u8)
        ensures
            r == self.neighbours,
    {
        self.neighbours
    }
}

/// The coordinate pair of a grid index pair.
pub open spec fn coord(q: (usize, usize)) -> (int, int) {
    (q.0 as int, q.1 as int)
}

/// Whether the index pair `(a, b)` occurs in the sequence.
pub open spec fn listed(s: Seq<(usize, usize)>, a: usize, b: usize) -> bool {
    exists|k: int| 0 <= k < s.len() && #[trigger] s[k] == (a, b)
}

/// The coordinates of the first `n` index pairs of the sequence.
pub open spec fn coord_prefix_set(s: Seq<(usize, usize)>, n: int) -> Set<(int, int)> {
    Set::new(|q: (int, int)| exists|k: int| 0 <= k < n && coord(#[trigger] s[k]) == q)
}

/// The coordinates of a sequence prefix form a finite set no larger
/// than the prefix.
pub proof fn lemma_coord_prefix_set_len(s: Seq<(usize, usize)>, n: int)
    requires
        0 <= n <= s.len(),
    ensures
        coord_prefix_set(s, n).finite(),
        coord_prefix_set(s, n).len() <= n,
    decreases n,
{
    broadcast use vstd::set::group_set_axioms;

    if n == 0 {
        assert(coord_prefix_set(s, 0) =~= Set::<(int, int)>::empty());
    } else {
        lemma_coord_prefix_set_len(s, n - 1);
        assert(coord_prefix_set(s, n) =~= coord_prefix_set(s, n - 1).insert(coord(s[n - 1])));
    }
}

/// Pushing onto a sequence keeps every listed pair listed, and lists the
/// pushed pair.
pub broadcast proof fn lemma_listed_push(s: Seq<(usize, usize)>, e: (usize, usize), a: usize, b: usize)
    ensures
        (listed(s, a, b) || e == (a, b)) ==> #[trigger] listed(s.push(e), a, b),
{
    if listed(s, a, b) {
        let k = choose|k: int| 0 <= k < s.len() && #[trigger] s[k] == (a, b);
        assert(s.push(e)[k] == (a, b));
    } else if e == (a, b) {
        assert(s.push(e)[s.len() as int] == (a, b));
    }
}

/// A dense colony: `width` rows of `height` cells, indexed as
/// `cells[x][y]`.  Dimensions are fixed at construction.
#[derive(Clone, PartialEq, Eq, Debug)]
pub struct Colony {
    pub cells: Vec<Vec<State>>,
}

impl Colony {
    /// The grid width (the number of rows, indexed by `x`).
    pub open spec fn width(self) -> int {
        self.cells@.len() as int
    }

    /// The grid height (the length of each row, indexed by `y`).
    pub open spec fn height(self) -> int {
        self.cells@[0]@.len() as int
    }

    /// The grid is rectangular and has at least one cell.
    pub open spec fn grid_wf(self) -> bool {
        &&& 0 < self.width()
        &&& 0 < self.height()
        &&& forall|i: int|
            0 <= i < self.width() ==> (#[trigger] self.cells@[i]@.len()) as int == self.height()
    }

    /// Whether `(x, y)` lies on the grid.
    pub open spec fn in_bounds(self, x: int, y: int) -> bool {
        0 <= x < self.width() && 0 <= y < self.height()
    }

    /// The cell at `(x, y)`.
    pub open spec fn cell(self, x: int, y: int) -> State {
        self.cells@[x]@[y]
    }

    /// The set of coordinates whose cells are alive.
    pub open spec fn live_set(self) -> Set<(int, int)> {
        Set::new(|p: (int, int)| self.in_bounds(p.0, p.1) && self.cell(p.0, p.1).alive)
    }

    /// Every cached neighbour count equals the number of live cells among
    /// the cell's grid neighbours.
    pub open spec fn counts_ok(self) -> bool {
        forall|x: int, y: int|
            self.in_bounds(x, y) ==> (#[trigger] self.cell(x, y)).neighbours as int == count8(
                self.live_set(),
                x,
                y,
            )
    }

    /// The colony invariant: a rectangular grid whose neighbour counts
    /// agree with its live set.  Held after construction and after every
    /// mutation.
    pub open spec fn wf(self) -> bool {
        self.grid_wf() && self.counts_ok()
    }

    /// A colony of the given dimensions with every cell dead and every
    /// neighbour count zero.
    pub fn new(width: isize, height: isize) -> (r: Colony)
        requires
            0 < width,
            0 < height,
        ensures
            r.wf(),
            r.width() == width as int,
            r.height() == height as int,
            r.live_set() == Set::<(int, int)>::empty(),
    {
        let w = width as usize;
        let h = height as usize;
        let mut cells: Vec<Vec<State>> = Vec::new();
        let mut i: usize = 0;
        while i < w
            invariant
                i <= w,
                cells@.len() == i,
                forall|k: int|
                    0 <= k < i ==> (#[trigger] cells@[k]@).len() == h as int,
                forall|k: int, j: int|
                    0 <= k < i && 0 <= j < h ==> (#[trigger] cells@[k]@[j]) == (State {
                        alive: false,
                        neighbours: 0u8,
                    }),
            decreases w - i,
        {
            let mut row: Vec<State> = Vec::new();
            let mut j: usize = 0;
            while j < h
                invariant
                    j <= h,
                    row@.len() == j,
                    forall|t: int|
                        0 <= t < j ==> (#[trigger] row@[t]) == (State {
                            alive: false,
                            neighbours: 0u8,
                        }),
                decreases h - j,
            {
                row.push(State { alive: false, neighbours: 0 });
                j = j + 1;
            }
            cells.push(row);
            i = i + 1;
        }
        let r = Colony { cells };
        proof {
            assert(r.live_set() =~= Set::<(int, int)>::empty());
            assert forall|a: int, b: int| r.in_bounds(a, b) implies (#[trigger] r.cell(
                a,
                b,
            )).neighbours as int == count8(r.live_set(), a, b) by {
                reveal(count8);
            }
        }
        r
    }

    /// Raises or lowers the cached neighbour count at `(i, j)` by one,
    /// leaving every other cell and the liveness flag untouched.
    fn nudge(&mut self, i: usize, j: usize, up: bool)
        requires
            old(self).grid_wf(),
            i < old(self).width(),
            j < old(self).height(),
            up ==> old(self).cell(i as int, j as int).neighbours < 8,
            !up ==> old(self).cell(i as int, j as int).neighbours > 0,
        ensures
            final(self).grid_wf(),
            final(self).width() == old(self).width(),
            final(self).height() == old(self).height(),
            forall|a: int, b: int|
                old(self).in_bounds(a, b) && !(a == i as int && b == j as int)
                    ==> (#[trigger] final(self).cell(a, b)) == old(self).cell(a, b),
            final(self).cell(i as int, j as int).alive == old(self).cell(
                i as int,
                j as int,
            ).alive,
            final(self).cell(i as int, j as int).neighbours as int == old(self).cell(
                i as int,
                j as int,
            ).neighbours as int + if up {
                1int
            } else {
                -1int
            },
    {
        let mut st = self.cells[i][j];
        if up {
            st.neighbours = st.neighbours + 1;
        } else {
            st.neighbours = st.neighbours - 1;
        }
        self.cells[i][j] = st;
    }

    /// Writes the liveness flag at `(x, y)`, leaving every other cell and
    /// the cached neighbour count untouched.
    fn set_flag(&mut self, x: usize, y: usize, state: bool)
        requires
            old(self).grid_wf(),
            x < old(self).width(),
            y < old(self).height(),
        ensures
            final(self).grid_wf(),
            final(self).width() == old(self).width(),
            final(self).height() == old(self).height(),
            forall|a: int, b: int|
                old(self).in_bounds(a, b) && !(a == x as int && b == y as int)
                    ==> (#[trigger] final(self).cell(a, b)) == old(self).cell(a, b),
            final(self).cell(x as int, y as int).alive == state,
            final(self).cell(x as int, y as int).neighbours == old(self).cell(
                x as int,
                y as int,
            ).neighbours,
    {
        let mut st = self.cells[x][y];
        st.alive = state;
        self.cells[x][y] = st;
    }

    /// Writes the liveness flag at `(x, y)` and moves every existing grid
    /// neighbour's cached count one step up or down; the flipped cell's own
    /// count and every other cell stay as they were.
    #[verifier::rlimit(100)]
    fn apply_flip(&mut self, x: usize, y: usize, state: bool)
        requires
            old(self).grid_wf(),
            x < old(self).width(),
            y < old(self).height(),
            old(self).cell(x as int, y as int).alive == !state,
            forall|a: int, b: int|
                old(self).in_bounds(a, b) && adj((x as int, y as int), (a, b)) ==> if state {
                    (#[trigger] old(self).cell(a, b)).neighbours < 8
                } else {
                    old(self).cell(a, b).neighbours > 0
                },
        ensures
            final(self).grid_wf(),
            final(self).width() == old(self).width(),
            final(self).height() == old(self).height(),
            forall|a: int, b: int|
                old(self).in_bounds(a, b) ==> (#[trigger] final(self).cell(a, b)).alive == if a
                    == x as int && b == y as int {
                    state
                } else {
                    old(self).cell(a, b).alive
                },
            forall|a: int, b: int|
                old(self).in_bounds(a, b) ==> (#[trigger] final(self).cell(
                    a,
                    b,
                )).neighbours as int == old(self).cell(a, b).neighbours as int + if adj(
                    (x as int, y as int),
                    (a, b),
                ) {
                    if state {
                        1int
                    } else {
                        -1int
                    }
                } else {
                    0int
                },
    {
        let ghost c0 = *old(self);
        self.set_flag(x, y, state);
        let w = self.cells.len();
        let h = self.cells[0].len();
        let ghost c1 = *self;
        if x >= 1 && y >= 1 {
            proof {
                assert(self.cell(x - 1, y - 1) == c1.cell(x - 1, y - 1));
                assert(c1.cell(x - 1, y - 1).neighbours == c0.cell(x - 1, y - 1).neighbours);
            }
            self.nudge(x - 1, y - 1, state);
        }
        if x >= 1 {
            proof {
                assert(self.cell(x - 1, y as int) == c1.cell(x - 1, y as int));
                assert(c1.cell(x - 1, y as int).neighbours == c0.cell(x - 1, y as int).neighbours);
            }
            self.nudge(x - 1, y, state);
        }
        if x >= 1 && y + 1 < h {
            proof {
                assert(self.cell(x - 1, y + 1) == c1.cell(x - 1, y + 1));
                assert(c1.cell(x - 1, y + 1).neighbours == c0.cell(x - 1, y + 1).neighbours);
            }
            self.nudge(x - 1, y + 1, state);
        }
        if y >= 1 {
            proof {
                assert(self.cell(x as int, y - 1) == c1.cell(x as int, y - 1));
                assert(c1.cell(x as int, y - 1).neighbours == c0.cell(x as int, y - 1).neighbours);
            }
            self.nudge(x, y - 1, state);
        }
        if y + 1 < h {
            proof {
                assert(self.cell(x as int, y + 1) == c1.cell(x as int, y + 1));
                assert(c1.cell(x as int, y + 1).neighbours == c0.cell(x as int, y + 1).neighbours);
            }
            self.nudge(x, y + 1, state);
        }
        if x + 1 < w && y >= 1 {
            proof {
                assert(self.cell(x + 1, y - 1) == c1.cell(x + 1, y - 1));
                assert(c1.cell(x + 1, y - 1).neighbours == c0.cell(x + 1, y - 1).neighbours);
            }
            self.nudge(x + 1, y - 1, state);
        }
        if x + 1 < w {
            proof {
                assert(self.cell(x + 1, y as int) == c1.cell(x + 1, y as int));
                assert(c1.cell(x + 1, y as int).neighbours == c0.cell(x + 1, y as int).neighbours);
            }
            self.nudge(x + 1, y, state);
        }
        if x + 1 < w && y + 1 < h {
            proof {
                assert(self.cell(x + 1, y + 1) == c1.cell(x + 1, y + 1));
                assert(c1.cell(x + 1, y + 1).neighbours == c0.cell(x + 1, y + 1).neighbours);
            }
            self.nudge(x + 1, y + 1, state);
        }
    }

    /// Around a cell about to flip, every existing neighbour's cached
    /// count has room to move one step: below eight before a birth,
    /// above zero before a death.
    proof fn lemma_flip_bounds(c0: Colony, x: int, y: int, state: bool)
        requires
            c0.wf(),
            c0.in_bounds(x, y),
            c0.cell(x, y).alive == !state,
        ensures
            forall|a: int, b: int|
                c0.in_bounds(a, b) && adj((x, y), (a, b)) ==> if state {
                    (#[trigger] c0.cell(a, b)).neighbours < 8
                } else {
                    c0.cell(a, b).neighbours > 0
                },
    {
        let l0 = c0.live_set();
        let p = (x, y);
        if state {
            assert(!l0.contains(p));
        } else {
            assert(l0.contains(p));
        }
        assert forall|a: int, b: int|
            c0.in_bounds(a, b) && adj((x, y), (a, b)) implies if state {
            (#[trigger] c0.cell(a, b)).neighbours < 8
        } else {
            c0.cell(a, b).neighbours > 0
        } by {
            lemma_count8_slack(l0, p, a, b);
            assert(c0.cell(a, b).neighbours as int == count8(l0, a, b));
        }
    }

    /// A grid that flipped one cell's liveness and moved each of its
    /// neighbours' cached counts one step satisfies the colony invariant
    /// again, with the cell joined to or taken out of the live set.
    proof fn lemma_flip_updates_counts(c0: Colony, c2: Colony, x: int, y: int, state: bool)
        requires
            c0.wf(),
            c0.in_bounds(x, y),
            c0.cell(x, y).alive == !state,
            c2.grid_wf(),
            c2.width() == c0.width(),
            c2.height() == c0.height(),
            forall|a: int, b: int|
                c0.in_bounds(a, b) ==> (#[trigger] c2.cell(a, b)).alive == if a == x && b == y {
                    state
                } else {
                    c0.cell(a, b).alive
                },
            forall|a: int, b: int|
                c0.in_bounds(a, b) ==> (#[trigger] c2.cell(a, b)).neighbours as int == c0.cell(
                    a,
                    b,
                ).neighbours as int + if adj((x, y), (a, b)) {
                    if state {
                        1int
                    } else {
                        -1int
                    }
                } else {
                    0int
                },
        ensures
            c2.wf(),
            c2.live_set() == if state {
                c0.live_set().insert((x, y))
            } else {
                c0.live_set().remove((x, y))
            },
    {
        let l0 = c0.live_set();
        let p = (x, y);
        if state {
            assert(!l0.contains(p));
        } else {
            assert(l0.contains(p));
        }
        let l1 = if state {
            l0.insert(p)
        } else {
            l0.remove(p)
        };
        assert(c2.live_set() =~= l1);
        assert forall|a: int, b: int| c2.in_bounds(a, b) implies (#[trigger] c2.cell(
            a,
            b,
        )).neighbours as int == count8(l1, a, b) by {
            if state {
                lemma_count8_insert(l0, p, a, b);
            } else {
                lemma_count8_remove(l0, p, a, b);
            }
            assert(c0.cell(a, b).neighbours as int == count8(l0, a, b));
        }
    }

    /// Flips the cell at `(x, y)` to the given liveness, adjusting the
    /// cached neighbour count of every grid neighbour; a no-op when the
    /// cell is already in that state.
    #[verifier::rlimit(100)]
    fn set_target_state(&mut self, x: usize, y: usize, state: bool)
        requires
            old(self).wf(),
            x < old(self).width(),
            y < old(self).height(),
        ensures
            final(self).wf(),
            final(self).width() == old(self).width(),
            final(self).height() == old(self).height(),
            final(self).live_set() == if state {
                old(self).live_set().insert((x as int, y as int))
            } else {
                old(self).live_set().remove((x as int, y as int))
            },
    {
        let ghost c0 = *old(self);
        let ghost l0 = c0.live_set();
        let ghost p = (x as int, y as int);
        if self.cells[x][y].alive == state {
            proof {
                if state {
                    assert(l0.insert(p) =~= l0);
                } else {
                    assert(l0.remove(p) =~= l0);
                }
            }
            return ;
        }
        proof {
            Self::lemma_flip_bounds(c0, x as int, y as int, state);
        }
        self.apply_flip(x, y, state);
        proof {
            Self::lemma_flip_updates_counts(c0, *self, x as int, y as int, state);
        }
    }

    /// Makes the cell at `(x, y)` alive, raising each grid neighbour's
    /// cached count; a no-op when the cell is already alive.
    pub fn make_alive(&mut self, x: usize, y: usize)
        requires
            old(self).wf(),
            x < old(self).width(),
            y < old(self).height(),
        ensures
            final(self).wf(),
            final(self).width() == old(self).width(),
            final(self).height() == old(self).height(),
            final(self).live_set() == old(self).live_set().insert((x as int, y as int)),
    {
        self.set_target_state(x, y, true);
    }

    /// Makes the cell at `(x, y)` dead, lowering each grid neighbour's
    /// cached count; a no-op when the cell is already dead.
    pub fn make_dead(&mut self, x: usize, y: usize)
        requires
            old(self).wf(),
            x < old(self).width(),
            y < old(self).height(),
        ensures
            final(self).wf(),
            final(self).width() == old(self).width(),
            final(self).height() == old(self).height(),
            final(self).live_set() == old(self).live_set().remove((x as int, y as int)),
    {
        self.set_target_state(x, y, false);
    }

    /// Whether the cell at `(x, y)` is alive.
    pub fn is_alive(&self, x: usize, y: usize) -> (r: bool)
        requires
            self.grid_wf(),
            x < self.width(),
            y < self.height(),
        ensures
            r == self.live_set().contains((x as int, y as int)),
    {
        self.cells[x][y].alive
    }

    /// The coordinates of every live cell, in strictly increasing
    /// row-major scan order, each exactly once.
    #[verifier::loop_isolation(false)]
    pub fn live_cells(&self) -> (r: Vec<(usize, usize)>)
        requires
            self.grid_wf(),
        ensures
            forall|k: int|
                0 <= k < r@.len() ==> self.live_set().contains(coord(#[trigger] r@[k])),
            forall|a: usize, b: usize|
                self.live_set().contains((a as int, b as int)) ==> listed(r@, a, b),
            forall|k1: int, k2: int|
                #![trigger r@[k1], r@[k2]]
                0 <= k1 < k2 < r@.len() ==> r@[k1].0 < r@[k2].0 || (r@[k1].0 == r@[k2].0
                    && r@[k1].1 < r@[k2].1),
    {
        broadcast use lemma_listed_push;

        let mut r: Vec<(usize, usize)> = Vec::new();
        let w = self.cells.len();
        let mut x: usize = 0;
        while x < w
            invariant
                x <= w,
                forall|k: int|
                    0 <= k < r@.len() ==> self.live_set().contains(coord(#[trigger] r@[k])),
                forall|a: usize, b: usize|
                    a < x && self.live_set().contains((a as int, b as int)) ==> listed(r@, a, b),
                forall|k: int| 0 <= k < r@.len() ==> (#[trigger] r@[k]).0 < x,
                forall|k1: int, k2: int|
                    #![trigger r@[k1], r@[k2]]
                    0 <= k1 < k2 < r@.len() ==> r@[k1].0 < r@[k2].0 || (r@[k1].0 == r@[k2].0
                        && r@[k1].1 < r@[k2].1),
            decreases w - x,
        {
            let h = self.cells[x].len();
            let mut y: usize = 0;
            while y < h
                invariant
                    x < w,
                    y <= h,
                    forall|k: int|
                        0 <= k < r@.len() ==> self.live_set().contains(coord(#[trigger] r@[k])),
                    forall|a: usize, b: usize|
                        a < x && self.live_set().contains((a as int, b as int)) ==> listed(
                            r@,
                            a,
                            b,
                        ),
                    forall|b: usize|
                        b < y && self.live_set().contains((x as int, b as int)) ==> listed(
                            r@,
                            x,
                            b,
                        ),
                    forall|k: int|
                        0 <= k < r@.len() ==> (#[trigger] r@[k]).0 < x || (r@[k].0 == x
                            && r@[k].1 < y),
                    forall|k1: int, k2: int|
                        #![trigger r@[k1], r@[k2]]
                        0 <= k1 < k2 < r@.len() ==> r@[k1].0 < r@[k2].0 || (r@[k1].0 == r@[k2].0
                            && r@[k1].1 < r@[k2].1),
                decreases h - y,
            {
                if self.cells[x][y].alive {
                    r.push((x, y));
                }
                y = y + 1;
            }
            x = x + 1;
        }
        r
    }
}

} // verus!

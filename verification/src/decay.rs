//! The decay overlay: a cosmetic per-cell fade counter for rendering
//! trailing brightness.  It never feeds back into the transition rule;
//! it only reads a colony snapshot.

use vstd::prelude::*;

use crate::structs::Colony;

verus! {

/// The brightness a cell gets the instant it becomes alive.
pub const LIFE_MAX: u8 = 255;

/// How much brightness a dead cell loses each generation.
pub const LIFE_STEP: u8 = 16;

/// What one generation of fading leaves of a counter.
pub open spec fn faded(v: u8) -> u8 {
    if v >= LIFE_STEP {
        (v - LIFE_STEP) as u8
    } else {
        0u8
    }
}

/// A decay overlay: one fade counter per cell of a `width` by `height`
/// grid, indexed as `life[x][y]` like the dense colony's cells.
#[derive(Clone, PartialEq, Eq, Debug)]
pub struct DecayOverlay {
    pub life: Vec<Vec<u8>>,
}

impl DecayOverlay {
    /// The grid width (the number of rows, indexed by `x`).
    pub open spec fn width(self) -> int {
        self.life@.len() as int
    }

    /// The grid height (the length of each row, indexed by `y`).
    pub open spec fn height(self) -> int {
        self.life@[0]@.len() as int
    }

    /// The grid is rectangular and has at least one cell.
    pub open spec fn wf(self) -> bool {
        &&& 0 < self.width()
        &&& 0 < self.height()
        &&& forall|i: int|
            0 <= i < self.width() ==> (#[trigger] self.life@[i]@.len()) as int == self.height()
    }

    /// Whether `(x, y)` lies on the grid.
    pub open spec fn in_bounds(self, x: int, y: int) -> bool {
        0 <= x < self.width() && 0 <= y < self.height()
    }

    /// The fade counter at `(x, y)`.
    pub open spec fn life_at(self, x: int, y: int) -> u8 {
        self.life@[x]@[y]
    }

    /// A fully faded overlay of the given dimensions.
    pub fn new(width: isize, height: isize) -> (r: DecayOverlay)
        requires
            0 < width,
            0 < height,
        ensures
            r.wf(),
            r.width() == width as int,
            r.height() == height as int,
            forall|a: int, b: int| r.in_bounds(a, b) ==> #[trigger] r.life_at(a, b) == 0u8,
    {
        let w = width as usize;
        let h = height as usize;
        let mut life: Vec<Vec<u8>> = Vec::new();
        let mut i: usize = 0;
        while i < w
            invariant
                i <= w,
                life@.len() == i,
                forall|k: int| 0 <= k < i ==> (#[trigger] life@[k]@).len() == h as int,
                forall|k: int, j: int|
                    0 <= k < i && 0 <= j < h ==> (#[trigger] life@[k]@[j]) == 0u8,
            decreases w - i,
        {
            let mut row: Vec<u8> = Vec::new();
            let mut j: usize = 0;
            while j < h
                invariant
                    j <= h,
                    row@.len() == j,
                    forall|t: int| 0 <= t < j ==> (#[trigger] row@[t]) == 0u8,
                decreases h - j,
            {
                row.push(0);
                j = j + 1;
            }
            life.push(row);
            i = i + 1;
        }
        DecayOverlay { life }
    }

    /// The fade counter at `(x, y)`.
    pub fn life_left(&self, x: usize, y: usize) -> (r: u8)
        requires
            self.wf(),
            x < self.width(),
            y < self.height(),
        ensures
            r == self.life_at(x as int, y as int),
    {
        self.life[x][y]
    }

    /// Sets the counter at `(x, y)` to the maximum: what happens the
    /// instant the cell becomes alive.
    pub fn refresh(&mut self, x: usize, y: usize)
        requires
            old(self).wf(),
            x < old(self).width(),
            y < old(self).height(),
        ensures
            final(self).wf(),
            final(self).width() == old(self).width(),
            final(self).height() == old(self).height(),
            final(self).life_at(x as int, y as int) == LIFE_MAX,
            forall|a: int, b: int|
                old(self).in_bounds(a, b) && !(a == x as int && b == y as int)
                    ==> #[trigger] final(self).life_at(a, b) == old(self).life_at(a, b),
    {
        self.life[x][y] = LIFE_MAX;
    }

    /// Lowers the counter at `(x, y)` by the fixed step, stopping at
    /// zero; liveness and neighbour counts live elsewhere and stay put.
    pub fn reduce_life(&mut self, x: usize, y: usize)
        requires
            old(self).wf(),
            x < old(self).width(),
            y < old(self).height(),
        ensures
            final(self).wf(),
            final(self).width() == old(self).width(),
            final(self).height() == old(self).height(),
            final(self).life_at(x as int, y as int) == faded(
                old(self).life_at(x as int, y as int),
            ),
            forall|a: int, b: int|
                old(self).in_bounds(a, b) && !(a == x as int && b == y as int)
                    ==> #[trigger] final(self).life_at(a, b) == old(self).life_at(a, b),
    {
        let v = self.life[x][y];
        if v >= LIFE_STEP {
            self.life[x][y] = v - LIFE_STEP;
        } else {
            self.life[x][y] = 0;
        }
    }

    /// The fading half of a decay generation, run against the colony
    /// before it steps: every dead cell's counter drops by the step,
    /// every live cell's counter stays.
    #[verifier::loop_isolation(false)]
    pub fn fade_dead(&mut self, colony: &Colony)
        requires
            old(self).wf(),
            colony.wf(),
            old(self).width() == colony.width(),
            old(self).height() == colony.height(),
        ensures
            final(self).wf(),
            final(self).width() == old(self).width(),
            final(self).height() == old(self).height(),
            forall|a: int, b: int|
                old(self).in_bounds(a, b) ==> #[trigger] final(self).life_at(a, b)
                    == if colony.cell(a, b).alive {
                    old(self).life_at(a, b)
                } else {
                    faded(old(self).life_at(a, b))
                },
    {
        let w = self.life.len();
        let mut x: usize = 0;
        while x < w
            invariant
                x <= w,
                self.wf(),
                self.width() == old(self).width(),
                self.height() == old(self).height(),
                forall|a: int, b: int|
                    old(self).in_bounds(a, b) && a >= x ==> #[trigger] self.life_at(a, b) == old(
                        self,
                    ).life_at(a, b),
                forall|a: int, b: int|
                    old(self).in_bounds(a, b) && a < x ==> #[trigger] self.life_at(a, b)
                        == if colony.cell(a, b).alive {
                        old(self).life_at(a, b)
                    } else {
                        faded(old(self).life_at(a, b))
                    },
            decreases w - x,
        {
            let h = self.life[x].len();
            let mut y: usize = 0;
            while y < h
                invariant
                    x < w,
                    y <= h,
                    self.wf(),
                    self.width() == old(self).width(),
                    self.height() == old(self).height(),
                    forall|a: int, b: int|
                        old(self).in_bounds(a, b) && (a > x || (a == x && b >= y))
                            ==> #[trigger] self.life_at(a, b) == old(self).life_at(a, b),
                    forall|a: int, b: int|
                        old(self).in_bounds(a, b) && (a < x || (a == x && b < y))
                            ==> #[trigger] self.life_at(a, b) == if colony.cell(a, b).alive {
                            old(self).life_at(a, b)
                        } else {
                            faded(old(self).life_at(a, b))
                        },
                decreases h - y,
            {
                let alive = colony.is_alive(x, y);
                let ghost pre = *self;
                proof {
                    assert(colony.live_set().contains((x as int, y as int)) == colony.cell(
                        x as int,
                        y as int,
                    ).alive);
                }
                if !alive {
                    let v = self.life[x][y];
                    if v >= LIFE_STEP {
                        self.life[x][y] = v - LIFE_STEP;
                    } else {
                        self.life[x][y] = 0;
                    }
                }
                proof {
                    assert forall|a: int, b: int|
                        pre.in_bounds(a, b) && !(a == x as int && b == y as int)
                            implies #[trigger] self.life_at(a, b) == pre.life_at(a, b) by {}
                    assert(self.life_at(x as int, y as int) == if colony.cell(
                        x as int,
                        y as int,
                    ).alive {
                        pre.life_at(x as int, y as int)
                    } else {
                        faded(pre.life_at(x as int, y as int))
                    });
                }
                y = y + 1;
            }
            x = x + 1;
        }
    }

    /// The shining half of a decay generation, run against the colony
    /// after it steps: every cell alive now gets the maximum counter,
    /// every dead cell's counter stays.
    #[verifier::loop_isolation(false)]
    pub fn shine_alive(&mut self, colony: &Colony)
        requires
            old(self).wf(),
            colony.wf(),
            old(self).width() == colony.width(),
            old(self).height() == colony.height(),
        ensures
            final(self).wf(),
            final(self).width() == old(self).width(),
            final(self).height() == old(self).height(),
            forall|a: int, b: int|
                old(self).in_bounds(a, b) ==> #[trigger] final(self).life_at(a, b)
                    == if colony.cell(a, b).alive {
                    LIFE_MAX
                } else {
                    old(self).life_at(a, b)
                },
    {
        let w = self.life.len();
        let mut x: usize = 0;
        while x < w
            invariant
                x <= w,
                self.wf(),
                self.width() == old(self).width(),
                self.height() == old(self).height(),
                forall|a: int, b: int|
                    old(self).in_bounds(a, b) && a >= x ==> #[trigger] self.life_at(a, b) == old(
                        self,
                    ).life_at(a, b),
                forall|a: int, b: int|
                    old(self).in_bounds(a, b) && a < x ==> #[trigger] self.life_at(a, b)
                        == if colony.cell(a, b).alive {
                        LIFE_MAX
                    } else {
                        old(self).life_at(a, b)
                    },
            decreases w - x,
        {
            let h = self.life[x].len();
            let mut y: usize = 0;
            while y < h
                invariant
                    x < w,
                    y <= h,
                    self.wf(),
                    self.width() == old(self).width(),
                    self.height() == old(self).height(),
                    forall|a: int, b: int|
                        old(self).in_bounds(a, b) && (a > x || (a == x && b >= y))
                            ==> #[trigger] self.life_at(a, b) == old(self).life_at(a, b),
                    forall|a: int, b: int|
                        old(self).in_bounds(a, b) && (a < x || (a == x && b < y))
                            ==> #[trigger] self.life_at(a, b) == if colony.cell(a, b).alive {
                            LIFE_MAX
                        } else {
                            old(self).life_at(a, b)
                        },
                decreases h - y,
            {
                let alive = colony.is_alive(x, y);
                let ghost pre = *self;
                proof {
                    assert(colony.live_set().contains((x as int, y as int)) == colony.cell(
                        x as int,
                        y as int,
                    ).alive);
                }
                if alive {
                    self.life[x][y] = LIFE_MAX;
                }
                proof {
                    assert forall|a: int, b: int|
                        pre.in_bounds(a, b) && !(a == x as int && b == y as int)
                            implies #[trigger] self.life_at(a, b) == pre.life_at(a, b) by {}
                    assert(self.life_at(x as int, y as int) == if colony.cell(
                        x as int,
                        y as int,
                    ).alive {
                        LIFE_MAX
                    } else {
                        pre.life_at(x as int, y as int)
                    });
                }
                y = y + 1;
            }
            x = x + 1;
        }
    }
}

} // verus!
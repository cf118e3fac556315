//! Conway's game of life on a torus the size of the frame.
use vstd::prelude::*;

use crate::animations::Animation;
use crate::color::{Color, FULL};
use crate::frame::{Character, Frame};
use crate::random::random_below;

verus! {

/// 1 for a live cell, 0 for a dead one.
pub open spec fn live(cells: Seq<bool>, i: int) -> int {
    if cells[i] {
        1
    } else {
        0
    }
}

/// Whether the neighbor at offset `(dx, dy)` of `(cx, cy)` lives, on a `w` by
/// `h` torus stored row by row.
pub open spec fn neighbor(cells: Seq<bool>, w: int, h: int, cx: int, cy: int, dx: int, dy: int) -> int {
    live(cells, ((cy + dy) % h) * w + (cx + dx) % w)
}

/// The number of live cells among the eight neighbors of `(cx, cy)`.
pub open spec fn live_neighbors(cells: Seq<bool>, w: int, h: int, cx: int, cy: int) -> int {
    neighbor(cells, w, h, cx, cy, -1, -1) + neighbor(cells, w, h, cx, cy, -1, 0) + neighbor(
        cells,
        w,
        h,
        cx,
        cy,
        -1,
        1,
    ) + neighbor(cells, w, h, cx, cy, 0, -1) + neighbor(cells, w, h, cx, cy, 0, 1) + neighbor(
        cells,
        w,
        h,
        cx,
        cy,
        1,
        -1,
    ) + neighbor(cells, w, h, cx, cy, 1, 0) + neighbor(cells, w, h, cx, cy, 1, 1)
}

/// The next generation: a cell lives with exactly three live neighbors, or
/// with two if it lives already.
pub open spec fn next_generation(cells: Seq<bool>, w: int, h: int) -> Seq<bool> {
    Seq::new(
        (w * h) as nat,
        |i: int|
            {
                let n = live_neighbors(cells, w, h, i % w, i / w);
                (n == 2 && cells[i]) || n == 3
            },
    )
}

/// The game of life, advanced by one generation every `speed` renders.
pub struct GOL {
    data: Vec<bool>,
    step_counter: usize,
    speed: usize,
    x: usize,
    y: usize,
    initialized: bool,
}

fn wrap(v: usize, d: isize, n: usize) -> (r: usize)
    requires
        v < n,
        -1 <= d <= 1,
    ensures
        r == (v + d) % (n as int),
        r < n,
{
    let r: usize = if d < 0 && v == 0 {
        n - 1
    } else if d > 0 && v + 1 == n {
        0
    } else if d < 0 {
        v - 1
    } else if d > 0 {
        v + 1
    } else {
        v
    };
    proof {
        let q: int = if d < 0 && v == 0 {
            -1
        } else if d > 0 && v + 1 == n {
            1
        } else {
            0
        };
        vstd::arithmetic::div_mod::lemma_fundamental_div_mod_converse(v + d, n as int, q, r as int);
    }
    r
}

impl GOL {
    const NAME: &'static str = "Game of Life";
    const AUTHOR: &'static str = "Jo";

    /// The cells, row by row.
    pub closed spec fn cells(&self) -> Seq<bool> {
        self.data@
    }

    pub closed spec fn width(&self) -> int {
        self.x as int
    }

    pub closed spec fn height(&self) -> int {
        self.y as int
    }

    /// How many times `step` has been called.
    pub closed spec fn counter(&self) -> int {
        self.step_counter as int
    }

    /// Renders per generation.
    pub closed spec fn speed(&self) -> int {
        self.speed as int
    }

    pub closed spec fn initialized(&self) -> bool {
        self.initialized
    }

    /// The grid holds at least `width * height` cells, and the speed is positive.
    pub open spec fn wf(&self) -> bool {
        self.cells().len() >= self.width() * self.height() && self.speed() > 0
    }

    fn neighbor_value(&self, x: usize, y: usize, dx: isize, dy: isize) -> (r: u8)
        requires
            self.wf(),
            x < self.x,
            y < self.y,
            -1 <= dx <= 1,
            -1 <= dy <= 1,
        ensures
            r == neighbor(self.data@, self.x as int, self.y as int, x as int, y as int, dx as int, dy as int),
    {
        let xi = wrap(x, dx, self.x);
        let yi = wrap(y, dy, self.y);
        proof {
            crate::frame::lemma_grid_index(xi as int, yi as int, self.x as int, self.y as int);
        }
        // the length is a usize, which bounds the index arithmetic
        let _len = self.data.len();
        if self.data[yi * self.x + xi] {
            1
        } else {
            0
        }
    }

    /// Every `speed` calls (starting with the first) advances the grid by one
    /// generation; the other calls only count.
    pub fn step(&mut self)
        requires
            old(self).wf(),
            old(self).counter() < usize::MAX,
        ensures
            final(self).wf(),
            final(self).width() == old(self).width(),
            final(self).height() == old(self).height(),
            final(self).speed() == old(self).speed(),
            final(self).initialized() == old(self).initialized(),
            final(self).counter() == old(self).counter() + 1,
            old(self).counter() % old(self).speed() != 0 ==> final(self).cells() == old(self).cells(),
            old(self).counter() % old(self).speed() == 0 ==> final(self).cells() == next_generation(
                old(self).cells(),
                old(self).width(),
                old(self).height(),
            ),
    {
        // only make a game step every self.speed steps
        if self.step_counter % self.speed != 0 {
            self.step_counter += 1;
            return;
        }
        self.step_counter += 1;
        let ghost old_cells = self.data@;
        let w = self.x;
        let h = self.y;
        // the length is a usize, which bounds the index arithmetic
        let _len = self.data.len();
        proof {
            assert(w * h <= self.data@.len());
        }
        let total: usize = w * h;
        let mut new_data: Vec<bool> = Vec::new();
        let mut y: usize = 0;
        while y < h
            invariant
                self.wf(),
                self.data@ == old_cells,
                w == self.x,
                h == self.y,
                total == w * h,
                y <= h,
                new_data@.len() == y * w,
                forall|i: int|
                    0 <= i < y * w ==> #[trigger] new_data@[i] == next_generation(
                        old_cells,
                        w as int,
                        h as int,
                    )[i],
            decreases h - y,
        {
            let mut x: usize = 0;
            proof {
                crate::frame::lemma_row_span(y as int, w as int, h as int);
            }
            while x < w
                invariant
                    self.wf(),
                    self.data@ == old_cells,
                    w == self.x,
                    h == self.y,
                    total == w * h,
                    y < h,
                    x <= w,
                    (y + 1) * w == y * w + w,
                    (y + 1) * w <= w * h,
                    new_data@.len() == y * w + x,
                    forall|i: int|
                        0 <= i < y * w + x ==> #[trigger] new_data@[i] == next_generation(
                            old_cells,
                            w as int,
                            h as int,
                        )[i],
                decreases w - x,
            {
                let n: u8 = self.neighbor_value(x, y, -1, -1) + self.neighbor_value(x, y, -1, 0)
                    + self.neighbor_value(x, y, -1, 1) + self.neighbor_value(x, y, 0, -1)
                    + self.neighbor_value(x, y, 0, 1) + self.neighbor_value(x, y, 1, -1)
                    + self.neighbor_value(x, y, 1, 0) + self.neighbor_value(x, y, 1, 1);
                let idx = y * w + x;
                let alive = (n == 2 && self.data[idx]) || n == 3;
                proof {
                    let i = idx as int;
                    vstd::arithmetic::div_mod::lemma_fundamental_div_mod_converse(
                        i,
                        w as int,
                        y as int,
                        x as int,
                    );
                    assert(y * w == (y as int) * (w as int));
                    assert(next_generation(old_cells, w as int, h as int)[i] == alive);
                }
                new_data.push(alive);
                x += 1;
            }
            y += 1;
        }
        proof {
            assert(h * w == w * h) by (nonlinear_arith);
            assert(new_data@ =~= next_generation(old_cells, w as int, h as int));
        }
        self.data = new_data;
    }

    /// Brings each cell to life with probability one in four; cells already
    /// alive stay alive.
    pub fn initialize(&mut self)
        ensures
            final(self).cells().len() == old(self).cells().len(),
            forall|i: int|
                0 <= i < old(self).cells().len() && old(self).cells()[i]
                    ==> #[trigger] final(self).cells()[i],
            final(self).width() == old(self).width(),
            final(self).height() == old(self).height(),
            final(self).speed() == old(self).speed(),
            final(self).counter() == old(self).counter(),
            final(self).initialized() == old(self).initialized(),
    {
        let n = self.data.len();
        let mut i: usize = 0;
        while i < n
            invariant
                i <= n,
                n == old(self).data@.len(),
                self.data@.len() == n,
                forall|j: int| 0 <= j < n && old(self).data@[j] ==> #[trigger] self.data@[j],
                self.x == old(self).x,
                self.y == old(self).y,
                self.speed == old(self).speed,
                self.step_counter == old(self).step_counter,
                self.initialized == old(self).initialized,
            decreases n - i,
        {
            if random_below(4) == 0 {
                self.data.set(i, true);
            }
            i += 1;
        }
    }
}

impl Default for GOL {
    fn default() -> (g: GOL)
        ensures
            g.wf(),
            g.cells().len() == 0,
            g.counter() == 0,
            g.speed() == 8,
            g.width() == 0,
            g.height() == 0,
            !g.initialized(),
    {
        GOL { data: Vec::new(), step_counter: 0, speed: 8, x: 0, y: 0, initialized: false }
    }
}

impl Animation for GOL {
    fn name(&self) -> &'static str {
        GOL::NAME
    }

    fn author(&self) -> &'static str {
        GOL::AUTHOR
    }

    fn render(&mut self, frame: &mut Frame)
        ensures
            final(self).width() == old(frame).x,
            final(self).height() == old(frame).y,
            final(self).initialized(),
            final(self).wf(),
            final(self).counter() == if old(self).counter() < usize::MAX {
                old(self).counter() + 1
            } else {
                1
            },
            old(self).initialized() && old(self).speed() > 0 && old(self).counter() < usize::MAX
                ==> final(self).cells() == if old(self).counter() % old(self).speed() == 0 {
                next_generation(
                    padded(old(self).cells(), old(frame).data@.len() as int),
                    old(frame).x as int,
                    old(frame).y as int,
                )
            } else {
                padded(old(self).cells(), old(frame).data@.len() as int)
            },
            forall|i: int|
                0 <= i < old(frame).data@.len() ==> #[trigger] final(frame).data@[i] == if i
                    < final(self).cells().len() && final(self).cells()[i] {
                    Character { character: '@', color: Color { r: FULL, g: FULL, b: FULL } }
                } else {
                    old(frame).data@[i]
                },
    {
        // fill the data if it is not big enough
        let ghost old_cells = self.data@;
        while self.data.len() < frame.data.len()
            invariant
                frame.wf(),
                frame.x == old(frame).x,
                frame.y == old(frame).y,
                frame.data@ == old(frame).data@,
                self.speed == old(self).speed,
                self.step_counter == old(self).step_counter,
                self.initialized == old(self).initialized,
                old_cells == old(self).data@,
                self.data@.len() >= old_cells.len(),
                self.data@.len() <= old_cells.len() || self.data@.len() <= frame.data@.len(),
                self.data@.subrange(0, old_cells.len() as int) == old_cells,
                forall|j: int| old_cells.len() <= j < self.data@.len() ==> !#[trigger] self.data@[j],
            decreases frame.data@.len() - self.data@.len(),
        {
            self.data.push(false);
            proof {
                assert(self.data@.subrange(0, old_cells.len() as int) =~= old_cells);
            }
        }
        proof {
            assert(self.data@ =~= padded(old_cells, frame.data@.len() as int));
        }
        self.x = frame.x;
        self.y = frame.y;
        // initialize, if not done yet
        if !self.initialized {
            self.initialize();
            self.initialized = true;
        }
        if self.speed == 0 {
            self.speed = 8;
        }
        if self.step_counter == usize::MAX {
            self.step_counter = 0;
        }
        self.step();
        // draw
        let ghost live = self.data@;
        let n = frame.data.len();
        let mut index: usize = 0;
        while index < n && index < self.data.len()
            invariant
                frame.wf(),
                frame.x == old(frame).x,
                frame.y == old(frame).y,
                n == frame.data@.len(),
                n == old(frame).data@.len(),
                self.data@ == live,
                index <= n,
                forall|i: int|
                    0 <= i < n ==> #[trigger] frame.data@[i] == if i < index && i < live.len()
                        && live[i] {
                        Character { character: '@', color: Color { r: FULL, g: FULL, b: FULL } }
                    } else {
                        old(frame).data@[i]
                    },
            decreases n - index,
        {
            if self.data[index] {
                frame.data.set(index, Character { character: '@', color: Color::white() });
            }
            index += 1;
        }
    }
}

/// `cells` extended with dead cells to length `n`, if shorter.
pub open spec fn padded(cells: Seq<bool>, n: int) -> Seq<bool> {
    if cells.len() >= n {
        cells
    } else {
        cells + Seq::new((n - cells.len()) as nat, |i: int| false)
    }
}

} // verus!

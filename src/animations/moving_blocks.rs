//! Rows and columns of colored blocks that slide in opposite directions.
use vstd::prelude::*;

use crate::animations::Animation;
use crate::color::Color;
use crate::frame::{Character, Frame};
use crate::utils::{fill_block, LIMIT};

verus! {

/// The lattice point at or below `v` of the lattice `start + 12 k`.
pub open spec fn lattice_base(v: int, start: int) -> int {
    start + 12 * ((v - start) / 12)
}

/// `v` lies in a block of three that starts on the lattice `start + 12 k`,
/// `k >= 0`.
pub open spec fn in_blocks(v: int, start: int) -> bool {
    v >= start && v - lattice_base(v, start) < 3
}

/// The offset of the sliding blocks after `step` renders, in `[0, 12)`.
pub open spec fn block_phase(step: int) -> int {
    (step / 8 + 3) % 12
}

pub open spec fn glyph_x() -> Character {
    Character { character: 'X', color: Color { r: 6000, g: 5034, b: 0 } }
}

pub open spec fn glyph_hash() -> Character {
    Character { character: '#', color: Color { r: 0, g: 3300, b: 6000 } }
}

pub open spec fn glyph_o() -> Character {
    Character { character: 'O', color: Color { r: 4500, g: 0, b: 6000 } }
}

pub open spec fn glyph_percent() -> Character {
    Character { character: '%', color: Color { r: 1200, g: 4620, b: 720 } }
}

/// What the blocks put at `(cx, cy)` after `step` renders, if anything: the
/// last of four sets of 3 by 3 blocks on a 12-cell lattice that covers the
/// cell. Rows of `X` from row 0 slide right and rows of `#` from row 6 slide
/// left; columns of `O` from column 6 slide down and columns of `%` from
/// column 0 slide up.
pub open spec fn block_cell(step: int, cx: int, cy: int) -> Option<Character> {
    let s1 = block_phase(step) - 3;
    let s2 = 9 - block_phase(step);
    if in_blocks(cx, 0) && in_blocks(cy, s2) {
        Some(glyph_percent())
    } else if in_blocks(cx, 6) && in_blocks(cy, s1) {
        Some(glyph_o())
    } else if in_blocks(cy, 6) && in_blocks(cx, s2) {
        Some(glyph_hash())
    } else if in_blocks(cy, 0) && in_blocks(cx, s1) {
        Some(glyph_x())
    } else {
        None
    }
}

proof fn lemma_lattice(v: int, start: int, j: int)
    requires
        j >= 0,
        start + 12 * j <= v < start + 12 * j + 12,
    ensures
        lattice_base(v, start) == start + 12 * j,
{
    vstd::arithmetic::div_mod::lemma_fundamental_div_mod_converse(
        v - start,
        12,
        j,
        v - start - 12 * j,
    );
}

proof fn lemma_base_below(v: int, start: int)
    requires
        v >= start,
    ensures
        start <= lattice_base(v, start) <= v,
        exists|j: int| j >= 0 && #[trigger] (start + 12 * j) == lattice_base(v, start),
{
    vstd::arithmetic::div_mod::lemma_fundamental_div_mod(v - start, 12);
    let j = (v - start) / 12;
    assert(start + 12 * j == lattice_base(v, start));
}

/// Blocks sliding one cell every `CLOCK_DIVIDER` renders.
#[derive(Default)]
pub struct MovingBlocks {
    step: usize,
}

impl MovingBlocks {
    const CLOCK_DIVIDER: usize = 8;
    const BLOCK_SIZE: usize = 3;

    /// How many renders have been made.
    pub closed spec fn steps(&self) -> int {
        self.step as int
    }

    /// Fills the blocks of one line: 3 by 3 blocks whose near side along the
    /// line is at `start + 12 k` (up to `extent`) and whose near side across
    /// it is at `pos`. Along x when `along_x`, else along y.
    fn fill_line(frame: &mut Frame, start: isize, pos: isize, extent: isize, along_x: bool, c: Character)
        requires
            old(frame).wf(),
            -LIMIT <= start <= LIMIT,
            0 <= pos <= LIMIT,
            extent == if along_x {
                old(frame).x as int
            } else {
                old(frame).y as int
            },
            extent <= LIMIT,
        ensures
            final(frame).wf(),
            final(frame).x == old(frame).x,
            final(frame).y == old(frame).y,
            forall|cx: int, cy: int|
                old(frame).contains(cx, cy) ==> #[trigger] final(frame).cell(cx, cy) == {
                    let (a, q) = if along_x {
                        (cx, cy)
                    } else {
                        (cy, cx)
                    };
                    if pos <= q < pos + 3 && in_blocks(a, start as int) {
                        c
                    } else {
                        old(frame).cell(cx, cy)
                    }
                },
    {
        let ghost start_frame = *frame;
        let mut p = start;
        let ghost mut j: int = 0;
        while p <= extent
            invariant
                frame.wf(),
                frame.x == start_frame.x,
                frame.y == start_frame.y,
                -LIMIT <= start <= LIMIT,
                0 <= pos <= LIMIT,
                extent <= LIMIT,
                extent == if along_x {
                    start_frame.x as int
                } else {
                    start_frame.y as int
                },
                j >= 0,
                p == start + 12 * j,
                -LIMIT <= p <= LIMIT + 12,
                forall|cx: int, cy: int|
                    start_frame.contains(cx, cy) ==> #[trigger] frame.cell(cx, cy) == {
                        let (a, q) = if along_x {
                            (cx, cy)
                        } else {
                            (cy, cx)
                        };
                        if pos <= q < pos + 3 && in_blocks(a, start as int) && lattice_base(
                            a,
                            start as int,
                        ) < p {
                            c
                        } else {
                            start_frame.cell(cx, cy)
                        }
                    },
            decreases LIMIT + 12 - p,
        {
            let ghost before = *frame;
            if along_x {
                fill_block(frame, p, pos, Self::BLOCK_SIZE, Self::BLOCK_SIZE, c);
            } else {
                fill_block(frame, pos, p, Self::BLOCK_SIZE, Self::BLOCK_SIZE, c);
            }
            proof {
                assert forall|cx: int, cy: int| start_frame.contains(cx, cy) implies #[trigger] frame.cell(
                    cx,
                    cy,
                ) == {
                    let (a, q) = if along_x {
                        (cx, cy)
                    } else {
                        (cy, cx)
                    };
                    if pos <= q < pos + 3 && in_blocks(a, start as int) && lattice_base(
                        a,
                        start as int,
                    ) < p + 12 {
                        c
                    } else {
                        start_frame.cell(cx, cy)
                    }
                } by {
                    let (a, q) = if along_x {
                        (cx, cy)
                    } else {
                        (cy, cx)
                    };
                    assert(before.cell(cx, cy) == before.cell(cx, cy));
                    if p <= a < p + 3 {
                        lemma_lattice(a, start as int, j);
                    }
                    if a >= start {
                        lemma_base_below(a, start as int);
                        if lattice_base(a, start as int) == p {
                            lemma_lattice(a, start as int, j);
                        }
                    }
                }
            }
            p += 12;
            proof {
                j = j + 1;
            }
        }
        proof {
            assert forall|cx: int, cy: int| start_frame.contains(cx, cy) implies #[trigger] frame.cell(
                cx,
                cy,
            ) == {
                let (a, q) = if along_x {
                    (cx, cy)
                } else {
                    (cy, cx)
                };
                if pos <= q < pos + 3 && in_blocks(a, start as int) {
                    c
                } else {
                    start_frame.cell(cx, cy)
                }
            } by {
                let a = if along_x {
                    cx
                } else {
                    cy
                };
                assert(frame.cell(cx, cy) == frame.cell(cx, cy));
                if a >= start {
                    lemma_base_below(a, start as int);
                }
            }
        }
    }

    /// Fills every line of blocks of one set: lines whose near side across
    /// them is at `first + 12 k` (inside the frame), each as `fill_line`
    /// fills it from `start`.
    fn fill_set(frame: &mut Frame, first: isize, start: isize, along_x: bool, c: Character)
        requires
            old(frame).wf(),
            -LIMIT <= start <= LIMIT,
            0 <= first <= 12,
            old(frame).x <= LIMIT,
            old(frame).y <= LIMIT,
        ensures
            final(frame).wf(),
            final(frame).x == old(frame).x,
            final(frame).y == old(frame).y,
            forall|cx: int, cy: int|
                old(frame).contains(cx, cy) ==> #[trigger] final(frame).cell(cx, cy) == {
                    let (a, q) = if along_x {
                        (cx, cy)
                    } else {
                        (cy, cx)
                    };
                    if in_blocks(q, first as int) && in_blocks(a, start as int) {
                        c
                    } else {
                        old(frame).cell(cx, cy)
                    }
                },
    {
        let ghost start_frame = *frame;
        let across: isize = if along_x {
            frame.y as isize
        } else {
            frame.x as isize
        };
        let extent: isize = if along_x {
            frame.x as isize
        } else {
            frame.y as isize
        };
        let mut q = first;
        let ghost mut k: int = 0;
        while q < across
            invariant
                frame.wf(),
                frame.x == start_frame.x,
                frame.y == start_frame.y,
                start_frame.x <= LIMIT,
                start_frame.y <= LIMIT,
                -LIMIT <= start <= LIMIT,
                0 <= first <= 12,
                across == if along_x {
                    start_frame.y as int
                } else {
                    start_frame.x as int
                },
                extent == if along_x {
                    start_frame.x as int
                } else {
                    start_frame.y as int
                },
                k >= 0,
                q == first + 12 * k,
                0 <= q <= LIMIT + 12,
                forall|cx: int, cy: int|
                    start_frame.contains(cx, cy) ==> #[trigger] frame.cell(cx, cy) == {
                        let (a, r) = if along_x {
                            (cx, cy)
                        } else {
                            (cy, cx)
                        };
                        if in_blocks(r, first as int) && lattice_base(r, first as int) < q
                            && in_blocks(a, start as int) {
                            c
                        } else {
                            start_frame.cell(cx, cy)
                        }
                    },
            decreases LIMIT + 12 - q,
        {
            let ghost before = *frame;
            Self::fill_line(frame, start, q, extent, along_x, c);
            proof {
                assert forall|cx: int, cy: int| start_frame.contains(cx, cy) implies #[trigger] frame.cell(
                    cx,
                    cy,
                ) == {
                    let (a, r) = if along_x {
                        (cx, cy)
                    } else {
                        (cy, cx)
                    };
                    if in_blocks(r, first as int) && lattice_base(r, first as int) < q + 12
                        && in_blocks(a, start as int) {
                        c
                    } else {
                        start_frame.cell(cx, cy)
                    }
                } by {
                    let r = if along_x {
                        cy
                    } else {
                        cx
                    };
                    assert(before.cell(cx, cy) == before.cell(cx, cy));
                    if q <= r < q + 3 {
                        lemma_lattice(r, first as int, k);
                    }
                    if r >= first {
                        lemma_base_below(r, first as int);
                        if lattice_base(r, first as int) == q {
                            lemma_lattice(r, first as int, k);
                        }
                    }
                }
            }
            q += 12;
            proof {
                k = k + 1;
            }
        }
        proof {
            assert forall|cx: int, cy: int| start_frame.contains(cx, cy) implies #[trigger] frame.cell(
                cx,
                cy,
            ) == {
                let (a, r) = if along_x {
                    (cx, cy)
                } else {
                    (cy, cx)
                };
                if in_blocks(r, first as int) && in_blocks(a, start as int) {
                    c
                } else {
                    start_frame.cell(cx, cy)
                }
            } by {
                let r = if along_x {
                    cy
                } else {
                    cx
                };
                assert(frame.cell(cx, cy) == frame.cell(cx, cy));
                if r >= first {
                    lemma_base_below(r, first as int);
                }
            }
        }
    }

    /// Draws the four sets of blocks for the current step, as `block_cell`
    /// states it; frames wider or taller than `LIMIT` are left as they are.
    pub fn draw(&self, frame: &mut Frame)
        requires
            old(frame).wf(),
        ensures
            final(frame).wf(),
            final(frame).x == old(frame).x,
            final(frame).y == old(frame).y,
            old(frame).x <= LIMIT && old(frame).y <= LIMIT ==> forall|cx: int, cy: int|
                old(frame).contains(cx, cy) ==> #[trigger] final(frame).cell(cx, cy) == match block_cell(
                    self.steps(),
                    cx,
                    cy,
                ) {
                    Some(c) => c,
                    None => old(frame).cell(cx, cy),
                },
    {
        if frame.x > LIMIT as usize || frame.y > LIMIT as usize {
            return;
        }
        let phase = ((self.step / Self::CLOCK_DIVIDER + Self::BLOCK_SIZE) % (4
            * Self::BLOCK_SIZE)) as isize;
        let s1 = phase - 3;
        let s2 = 9 - phase;
        // first set of blocks moving in x direction
        let char_1 = Character { character: 'X', color: Color { r: 6000, g: 5034, b: 0 } };
        Self::fill_set(frame, 0, s1, true, char_1);
        let char_2 = Character { character: '#', color: Color { r: 0, g: 3300, b: 6000 } };
        Self::fill_set(frame, 6, s2, true, char_2);
        // second set of blocks moving in y direction
        let char_3 = Character { character: 'O', color: Color { r: 4500, g: 0, b: 6000 } };
        Self::fill_set(frame, 6, s1, false, char_3);
        let char_4 = Character { character: '%', color: Color { r: 1200, g: 4620, b: 720 } };
        Self::fill_set(frame, 0, s2, false, char_4);
    }
}

impl Animation for MovingBlocks {
    fn name(&self) -> &'static str {
        "Moving Blocks"
    }

    fn author(&self) -> &'static str {
        "Jo"
    }

    fn render(&mut self, frame: &mut Frame)
        ensures
            final(self).steps() == if old(self).steps() < usize::MAX {
                old(self).steps() + 1
            } else {
                0
            },
            old(frame).x <= LIMIT && old(frame).y <= LIMIT ==> forall|cx: int, cy: int|
                old(frame).contains(cx, cy) ==> #[trigger] final(frame).cell(cx, cy) == match block_cell(
                    old(self).steps(),
                    cx,
                    cy,
                ) {
                    Some(c) => c,
                    None => old(frame).cell(cx, cy),
                },
    {
        self.draw(frame);
        self.step = self.step.wrapping_add(1);
    }
}

} // verus!

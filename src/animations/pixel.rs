//! A two-color image drawn with half-block glyphs, two image columns per cell.
use vstd::prelude::*;

use crate::animations::Animation;
use crate::color::Color;
use crate::frame::{lemma_grid_index, Character, Frame};
use crate::animations::grid::{image_at, matrix_shape, BoolMatrix};
use crate::utils::lemma_index_injective;

verus! {

/// The half-block glyph for an upper and a lower pixel, lit where light.
pub open spec fn half_block(upper: bool, lower: bool) -> char {
    if upper && lower {
        '█'
    } else if upper {
        '▀'
    } else if lower {
        '▄'
    } else {
        ' '
    }
}

/// The grey that the bitmap is drawn in: value 0.4 without saturation.
pub open spec fn pixel_grey() -> Color {
    Color { r: 2400, g: 2400, b: 2400 }
}

/// The cell that `Pixels` draws at column `cx` and row `cy` of the frame, if
/// any: image row `cx - left` and columns `2 (cy - top)` and the one after
/// (light where `true`).
pub open spec fn pixel_cell(image: BoolMatrix, left: int, top: int, cx: int, cy: int) -> Option<
    Character,
> {
    let r = cx - left;
    let c = 2 * (cy - top);
    if 0 <= r < matrix_shape(image).0 && 0 <= c < matrix_shape(image).1 {
        Some(
            Character {
                character: half_block(image_at(image, r, c), image_at(image, r, c + 1)),
                color: pixel_grey(),
            },
        )
    } else {
        None
    }
}

/// An image placed in the frame with its corner at `pos_top_left`.
pub struct Pixels {
    pub pos_top_left: (usize, usize),
    pub image: BoolMatrix,
}

impl Pixels {
    /// The image value at row `x` and column `y`, or `false` outside it.
    fn get_image_at(&self, x: usize, y: usize) -> (b: bool)
        ensures
            b == image_at(self.image, x as int, y as int),
    {
        self.image.at_or_false(x, y)
    }

    /// Draws the image, as `pixel_cell` states it; cells of the bitmap that
    /// fall outside the frame are dropped.
    pub fn draw(&self, frame: &mut Frame)
        requires
            old(frame).wf(),
            self.pos_top_left.0 + matrix_shape(self.image).0 <= isize::MAX,
            self.pos_top_left.1 + matrix_shape(self.image).1 <= isize::MAX,
        ensures
            final(frame).wf(),
            final(frame).x == old(frame).x,
            final(frame).y == old(frame).y,
            forall|cx: int, cy: int|
                old(frame).contains(cx, cy) ==> #[trigger] final(frame).cell(cx, cy) == match pixel_cell(
                    self.image,
                    self.pos_top_left.0 as int,
                    self.pos_top_left.1 as int,
                    cx,
                    cy,
                ) {
                    Some(c) => c,
                    None => old(frame).cell(cx, cy),
                },
    {
        let ghost start = *frame;
        let (left, top) = self.pos_top_left;
        let rows = self.image.nrows();
        let cols = self.image.ncols();
        let grey = Color { r: 2400, g: 2400, b: 2400 };
        let mut x: usize = 0;
        while x < rows
            invariant
                x <= rows,
                rows == matrix_shape(self.image).0,
                cols == matrix_shape(self.image).1,
                (left, top) == self.pos_top_left,
                grey == pixel_grey(),
                left + rows <= isize::MAX,
                top + cols <= isize::MAX,
                frame.wf(),
                frame.x == start.x,
                frame.y == start.y,
                forall|cx: int, cy: int|
                    start.contains(cx, cy) ==> #[trigger] frame.cell(cx, cy) == match pixel_cell(
                        self.image,
                        left as int,
                        top as int,
                        cx,
                        cy,
                    ) {
                        Some(c) => if cx - left < x {
                            c
                        } else {
                            start.cell(cx, cy)
                        },
                        None => start.cell(cx, cy),
                    },
            decreases rows - x,
        {
            let mut y: usize = 0;
            while y < cols
                invariant
                    x < rows,
                    y <= cols + 1,
                    y % 2 == 0,
                    rows == matrix_shape(self.image).0,
                    cols == matrix_shape(self.image).1,
                    (left, top) == self.pos_top_left,
                    grey == pixel_grey(),
                        left + rows <= isize::MAX,
                    top + cols <= isize::MAX,
                    frame.wf(),
                    frame.x == start.x,
                    frame.y == start.y,
                    forall|cx: int, cy: int|
                        start.contains(cx, cy) ==> #[trigger] frame.cell(cx, cy) == match pixel_cell(
                            self.image,
                            left as int,
                            top as int,
                            cx,
                            cy,
                        ) {
                            Some(c) => if cx - left < x || (cx - left == x && 2 * (cy - top) < y) {
                                c
                            } else {
                                start.cell(cx, cy)
                            },
                            None => start.cell(cx, cy),
                        },
                decreases cols + 1 - y,
            {
                let upper = self.get_image_at(x, y);
                let lower = self.get_image_at(x, y + 1);
                let character = if upper && lower {
                    '█'
                } else if upper {
                    '▀'
                } else if lower {
                    '▄'
                } else {
                    ' '
                };
                let cx = (x + left) as isize;
                let cy = (y / 2 + top) as isize;
                let ghost before = *frame;
                frame.set_at_clipping(cx, cy, Character { character, color: grey });
                proof {
                    assert forall|px: int, py: int| start.contains(px, py) implies #[trigger] frame.cell(
                        px,
                        py,
                    ) == match pixel_cell(self.image, left as int, top as int, px, py) {
                        Some(c) => if px - left < x || (px - left == x && 2 * (py - top) < y + 2) {
                            c
                        } else {
                            start.cell(px, py)
                        },
                        None => start.cell(px, py),
                    } by {
                        lemma_grid_index(px, py, start.x as int, start.y as int);
                        assert(before.cell(px, py) == match pixel_cell(
                            self.image,
                            left as int,
                            top as int,
                            px,
                            py,
                        ) {
                            Some(c) => if px - left < x || (px - left == x && 2 * (py - top) < y) {
                                c
                            } else {
                                start.cell(px, py)
                            },
                            None => start.cell(px, py),
                        });
                        if before.contains(cx as int, cy as int) {
                            lemma_grid_index(cx as int, cy as int, start.x as int, start.y as int);
                            if before.index_of(px, py) == before.index_of(cx as int, cy as int) {
                                lemma_index_injective(px, py, cx as int, cy as int, start.x as int);
                            }
                        }
                    }
                }
                y += 2;
            }
            x += 1;
        }
    }
}

impl Animation for Pixels {
    fn name(&self) -> &'static str {
        "pixels"
    }

    fn author(&self) -> &'static str {
        "Imarok"
    }

    fn render(&mut self, frame: &mut Frame)
        ensures
            final(self).pos_top_left == old(self).pos_top_left,
            final(self).image == old(self).image,
            old(self).pos_top_left.0 + matrix_shape(old(self).image).0 <= isize::MAX
                && old(self).pos_top_left.1 + matrix_shape(old(self).image).1 <= isize::MAX
                ==> forall|cx: int, cy: int|
                old(frame).contains(cx, cy) ==> #[trigger] final(frame).cell(cx, cy) == match pixel_cell(
                    old(self).image,
                    old(self).pos_top_left.0 as int,
                    old(self).pos_top_left.1 as int,
                    cx,
                    cy,
                ) {
                    Some(c) => c,
                    None => old(frame).cell(cx, cy),
                },
    {
        let max = isize::MAX as usize;
        let rows = self.image.nrows();
        let cols = self.image.ncols();
        if rows <= max && cols <= max && self.pos_top_left.0 <= max - rows
            && self.pos_top_left.1 <= max - cols {
            self.draw(frame);
        }
    }
}

} // verus!

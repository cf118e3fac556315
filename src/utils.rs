//! Geometry on a frame: block fill, segment clipping against a rectangle and
//! line rasterisation.
use vstd::prelude::*;

use crate::frame::{lemma_grid_index, Character, Frame};

verus! {

/// Position units per cell: a coordinate `c` stands for `c / PIXEL` cells.
pub const PIXEL: i32 = 1000;

/// A point of the plane, each coordinate in `1 / PIXEL` of a cell.
#[derive(Clone, Copy, Debug, PartialEq, Eq, Structural)]
pub struct Point {
    pub x: i32,
    pub y: i32,
}

impl Point {
    pub fn new(x: i32, y: i32) -> (p: Point)
        ensures
            p == (Point { x, y }),
    {
        Point { x, y }
    }
}

/// Cell coordinates that lines may use: within `LIMIT` of the origin, so the
/// stepping arithmetic fits on every target.
pub const LIMIT: isize = 0x100_0000;

pub open spec fn in_limit(v: int) -> bool {
    -LIMIT <= v <= LIMIT
}

/// Two grid positions with equal row-major index are the same position.
pub proof fn lemma_index_injective(c1: int, r1: int, c2: int, r2: int, w: int)
    requires
        0 <= c1 < w,
        0 <= c2 < w,
        0 <= r1,
        0 <= r2,
        r1 * w + c1 == r2 * w + c2,
    ensures
        c1 == c2,
        r1 == r2,
{
    if r1 < r2 {
        assert(r1 * w + c1 < r2 * w) by (nonlinear_arith)
            requires
                r1 < r2,
                0 <= c1 < w,
        ;
    } else if r2 < r1 {
        assert(r2 * w + c2 < r1 * w) by (nonlinear_arith)
            requires
                r2 < r1,
                0 <= c2 < w,
        ;
    }
}

/// Every cell in the block of `width` by `height` cells whose top left corner
/// is `(x, y)` is set to `char`, as far as it lies in the frame.
pub fn fill_block(frame: &mut Frame, x: isize, y: isize, width: usize, height: usize, char: Character)
    requires
        old(frame).wf(),
        x + width <= isize::MAX,
        y + height <= isize::MAX,
        width <= isize::MAX,
        height <= isize::MAX,
    ensures
        final(frame).x == old(frame).x,
        final(frame).y == old(frame).y,
        final(frame).wf(),
        forall|cx: int, cy: int|
            old(frame).contains(cx, cy) ==> #[trigger] final(frame).cell(cx, cy) == if x <= cx < x
                + width && y <= cy < y + height {
                char
            } else {
                old(frame).cell(cx, cy)
            },
{
    let ghost start = *frame;
    let mut x_index: usize = 0;
    while x_index < width
        invariant
            x_index <= width,
            x + width <= isize::MAX,
            y + height <= isize::MAX,
            width <= isize::MAX,
            height <= isize::MAX,
            frame.wf(),
            frame.x == start.x,
            frame.y == start.y,
            forall|cx: int, cy: int|
                start.contains(cx, cy) ==> #[trigger] frame.cell(cx, cy) == if x <= cx < x + x_index
                    && y <= cy < y + height {
                    char
                } else {
                    start.cell(cx, cy)
                },
        decreases width - x_index,
    {
        let mut y_index: usize = 0;
        while y_index < height
            invariant
                x_index < width,
                y_index <= height,
                x + width <= isize::MAX,
                y + height <= isize::MAX,
                width <= isize::MAX,
                height <= isize::MAX,
                frame.wf(),
                frame.x == start.x,
                frame.y == start.y,
                forall|cx: int, cy: int|
                    start.contains(cx, cy) ==> #[trigger] frame.cell(cx, cy) == if (x <= cx < x
                        + x_index && y <= cy < y + height) || (cx == x + x_index && y <= cy < y
                        + y_index) {
                        char
                    } else {
                        start.cell(cx, cy)
                    },
            decreases height - y_index,
        {
            let cx = x + x_index as isize;
            let cy = y + y_index as isize;
            let ghost before = *frame;
            frame.set_at_clipping(cx, cy, char);
            proof {
                assert forall|px: int, py: int| start.contains(px, py) implies #[trigger] frame.cell(
                    px,
                    py,
                ) == if (x <= px < x + x_index && y <= py < y + height) || (px == x + x_index && y
                    <= py < y + y_index + 1) {
                    char
                } else {
                    start.cell(px, py)
                } by {
                    lemma_grid_index(px, py, start.x as int, start.y as int);
                    assert(before.cell(px, py) == if (x <= px < x + x_index && y <= py < y + height)
                        || (px == x + x_index && y <= py < y + y_index) {
                        char
                    } else {
                        start.cell(px, py)
                    });
                    if before.contains(cx as int, cy as int) {
                        lemma_grid_index(cx as int, cy as int, start.x as int, start.y as int);
                        if before.index_of(px, py) == before.index_of(cx as int, cy as int) {
                            lemma_index_injective(
                                px,
                                py,
                                cx as int,
                                cy as int,
                                start.x as int,
                            );
                        }
                    }
                }
            }
            y_index += 1;
        }
        x_index += 1;
    }
}

/// `round(k * a / b)` with ties rounded down (0 when `b` is 0): how far a
/// line has moved along its minor axis after `k` steps along its major axis,
/// for a minor extent `a` and major extent `b`.
pub open spec fn minor_offset(k: int, a: int, b: int) -> int {
    if b <= 0 {
        0
    } else {
        (2 * k * a + b - 1) / (2 * b)
    }
}

/// `-1` for a negative value, else `1`.
pub open spec fn sign(v: int) -> int {
    if v < 0 {
        -1
    } else {
        1
    }
}

pub open spec fn abs(v: int) -> int {
    if v < 0 {
        -v
    } else {
        v
    }
}

/// The cells of a line stepped along x from `(x0, y0)` to `(x1, y1)`: one per
/// column, its row rounded to the nearest (ties toward `y0`).
pub open spec fn on_low_line(x0: int, y0: int, x1: int, y1: int, cx: int, cy: int) -> bool {
    x0 <= cx <= x1 && cy == y0 + sign(y1 - y0) * minor_offset(cx - x0, abs(y1 - y0), x1 - x0)
}

/// The cells of a line stepped along y from `(x0, y0)` to `(x1, y1)`: one per
/// row, its column rounded to the nearest (ties toward `x0`).
pub open spec fn on_high_line(x0: int, y0: int, x1: int, y1: int, cx: int, cy: int) -> bool {
    y0 <= cy <= y1 && cx == x0 + sign(x1 - x0) * minor_offset(cy - y0, abs(x1 - x0), y1 - y0)
}

/// The Bresenham error term after `k` steps decides the next step exactly as
/// the rounded offset does.
proof fn lemma_minor_step(k: int, a: int, b: int, m: int, d: int)
    requires
        0 <= k,
        0 <= a <= b,
        1 <= b,
        m == minor_offset(k, a, b),
        d == 2 * a * (k + 1) - b - 2 * b * m,
    ensures
        d > 0 ==> minor_offset(k + 1, a, b) == m + 1,
        d <= 0 ==> minor_offset(k + 1, a, b) == m,
        -2 * b <= d <= 2 * a,
        0 <= m <= k,
{
    let n = 2 * k * a + b - 1;
    let n1 = 2 * (k + 1) * a + b - 1;
    vstd::arithmetic::div_mod::lemma_fundamental_div_mod(n, 2 * b);
    let r = n % (2 * b);
    assert(n == 2 * b * m + r);
    assert(n1 == n + 2 * a) by (nonlinear_arith)
        requires
            n == 2 * k * a + b - 1,
            n1 == 2 * (k + 1) * a + b - 1,
    ;
    assert(d == n1 - 2 * b * m - 2 * b + 1) by (nonlinear_arith)
        requires
            d == 2 * a * (k + 1) - b - 2 * b * m,
            n1 == 2 * (k + 1) * a + b - 1,
    ;
    assert(2 * b * (m + 1) == 2 * b * m + 2 * b) by (nonlinear_arith);
    if d > 0 {
        vstd::arithmetic::div_mod::lemma_fundamental_div_mod_converse(
            n1,
            2 * b,
            m + 1,
            n1 - 2 * b * (m + 1),
        );
        assert((m + 1) * (2 * b) == 2 * b * (m + 1)) by (nonlinear_arith);
    } else {
        vstd::arithmetic::div_mod::lemma_fundamental_div_mod_converse(n1, 2 * b, m, n1 - 2 * b * m);
        assert(m * (2 * b) == 2 * b * m) by (nonlinear_arith);
    }
    assert(0 <= m <= k) by (nonlinear_arith)
        requires
            n == 2 * b * m + r,
            0 <= r < 2 * b,
            n == 2 * k * a + b - 1,
            0 <= a <= b,
            1 <= b,
            0 <= k,
    ;
}

/// Plots a line whose slope lies in `[-1, 1]`, left to right: one cell per
/// column from `x0` to `x1`, each set (where it lies in the frame) to what
/// `character` gives for it.
pub fn plot_line_low<F: Fn(isize, isize) -> Character>(
    frame: &mut Frame,
    x0: isize,
    y0: isize,
    x1: isize,
    y1: isize,
    character: &F,
)
    requires
        old(frame).wf(),
        in_limit(x0 as int),
        in_limit(y0 as int),
        in_limit(x1 as int),
        in_limit(y1 as int),
        abs(y1 - y0) <= x1 - x0,
        forall|x: isize, y: isize| character.requires((x, y)),
    ensures
        final(frame).x == old(frame).x,
        final(frame).y == old(frame).y,
        final(frame).wf(),
        forall|cx: int, cy: int|
            old(frame).contains(cx, cy) ==> if on_low_line(
                x0 as int,
                y0 as int,
                x1 as int,
                y1 as int,
                cx,
                cy,
            ) {
                character.ensures((cx as isize, cy as isize), #[trigger] final(frame).cell(cx, cy))
            } else {
                final(frame).cell(cx, cy) == old(frame).cell(cx, cy)
            },
{
    let ghost start = *frame;
    let dx = x1 - x0;
    let mut dy = y1 - y0;
    let mut yi: isize = 1;
    if dy < 0 {
        yi = -1;
        dy = -dy;
    }
    let mut d = (2 * dy) - dx;
    let mut y = y0;
    let mut x = x0;
    let ghost mut m: int = 0;
    assert(minor_offset(0, dy as int, dx as int) == 0) by {
        assert(2 * 0 * (dy as int) == 0) by (nonlinear_arith);
        if dx > 0 {
            vstd::arithmetic::div_mod::lemma_fundamental_div_mod_converse(
                dx - 1,
                2 * dx,
                0,
                dx - 1,
            );
        }
    }
    assert(2 * dy * (x - x0 + 1) - dx - 2 * dx * m == 2 * dy - dx) by (nonlinear_arith)
        requires
            x == x0,
            m == 0,
    ;
    while x <= x1
        invariant
            x0 <= x <= x1 + 1,
            in_limit(x0 as int),
            in_limit(y0 as int),
            in_limit(x1 as int),
            in_limit(y1 as int),
            dx == x1 - x0,
            dy == abs(y1 - y0),
            yi == sign(y1 - y0),
            0 <= dy <= dx,
            0 <= m <= x - x0,
            m == minor_offset(x - x0, dy as int, dx as int),
            y == y0 + yi * m,
            x <= x1 ==> d == 2 * dy * (x - x0 + 1) - dx - 2 * dx * m,
            -2 * dx - 2 * dx <= d <= 2 * dy + 2 * dy,
            forall|x: isize, y: isize| character.requires((x, y)),
            frame.wf(),
            frame.x == start.x,
            frame.y == start.y,
            forall|cx: int, cy: int|
                start.contains(cx, cy) ==> if x0 <= cx < x && on_low_line(
                    x0 as int,
                    y0 as int,
                    x1 as int,
                    y1 as int,
                    cx,
                    cy,
                ) {
                    character.ensures((cx as isize, cy as isize), #[trigger] frame.cell(cx, cy))
                } else {
                    frame.cell(cx, cy) == start.cell(cx, cy)
                },
        decreases x1 + 1 - x,
    {
        let c = character(x, y);
        let ghost before = *frame;
        frame.set_at_clipping(x, y, c);
        proof {
            if dx >= 1 {
                lemma_minor_step((x - x0) as int, dy as int, dx as int, m, d as int);
            }
            let k = (x - x0) as int;
            assert(2 * dy * (k + 2) == 2 * dy * (k + 1) + 2 * dy) by (nonlinear_arith);
            assert(2 * dx * (m + 1) == 2 * dx * m + 2 * dx) by (nonlinear_arith);
            assert(y == y0 + sign(y1 - y0) * minor_offset(x - x0, abs(y1 - y0), x1 - x0));
            assert forall|px: int, py: int| start.contains(px, py) implies if x0 <= px < x + 1
                && on_low_line(x0 as int, y0 as int, x1 as int, y1 as int, px, py) {
                character.ensures((px as isize, py as isize), #[trigger] frame.cell(px, py))
            } else {
                frame.cell(px, py) == start.cell(px, py)
            } by {
                lemma_grid_index(px, py, start.x as int, start.y as int);
                if x0 <= px < x && on_low_line(x0 as int, y0 as int, x1 as int, y1 as int, px, py) {
                    assert(character.ensures((px as isize, py as isize), before.cell(px, py)));
                } else {
                    assert(before.cell(px, py) == start.cell(px, py));
                }
                if before.contains(x as int, y as int) {
                    lemma_grid_index(x as int, y as int, start.x as int, start.y as int);
                    if before.index_of(px, py) == before.index_of(x as int, y as int) {
                        lemma_index_injective(px, py, x as int, y as int, start.x as int);
                    }
                }
            }
        }
        if d > 0 {
            y += yi;
            d += 2 * (dy - dx);
            proof {
                m = m + 1;
            }
        } else {
            d += 2 * dy;
        }
        x += 1;
    }
}

/// Plots a line whose slope is at least 1 in size, top to bottom: one cell
/// per row from `y0` to `y1`, each set (where it lies in the frame) to what
/// `character` gives for it.
pub fn plot_line_high<F: Fn(isize, isize) -> Character>(
    frame: &mut Frame,
    x0: isize,
    y0: isize,
    x1: isize,
    y1: isize,
    character: &F,
)
    requires
        old(frame).wf(),
        in_limit(x0 as int),
        in_limit(y0 as int),
        in_limit(x1 as int),
        in_limit(y1 as int),
        abs(x1 - x0) <= y1 - y0,
        forall|x: isize, y: isize| character.requires((x, y)),
    ensures
        final(frame).x == old(frame).x,
        final(frame).y == old(frame).y,
        final(frame).wf(),
        forall|cx: int, cy: int|
            old(frame).contains(cx, cy) ==> if on_high_line(
                x0 as int,
                y0 as int,
                x1 as int,
                y1 as int,
                cx,
                cy,
            ) {
                character.ensures((cx as isize, cy as isize), #[trigger] final(frame).cell(cx, cy))
            } else {
                final(frame).cell(cx, cy) == old(frame).cell(cx, cy)
            },
{
    let ghost start = *frame;
    let mut dx = x1 - x0;
    let dy = y1 - y0;
    let mut xi: isize = 1;
    if dx < 0 {
        xi = -1;
        dx = -dx;
    }
    let mut d = (2 * dx) - dy;
    let mut x = x0;
    let mut y = y0;
    let ghost mut m: int = 0;
    assert(minor_offset(0, dx as int, dy as int) == 0) by {
        assert(2 * 0 * (dx as int) == 0) by (nonlinear_arith);
        if dy > 0 {
            vstd::arithmetic::div_mod::lemma_fundamental_div_mod_converse(
                dy - 1,
                2 * dy,
                0,
                dy - 1,
            );
        }
    }
    assert(2 * dx * (y - y0 + 1) - dy - 2 * dy * m == 2 * dx - dy) by (nonlinear_arith)
        requires
            y == y0,
            m == 0,
    ;
    while y <= y1
        invariant
            y0 <= y <= y1 + 1,
            in_limit(x0 as int),
            in_limit(y0 as int),
            in_limit(x1 as int),
            in_limit(y1 as int),
            dy == y1 - y0,
            dx == abs(x1 - x0),
            xi == sign(x1 - x0),
            0 <= dx <= dy,
            0 <= m <= y - y0,
            m == minor_offset(y - y0, dx as int, dy as int),
            x == x0 + xi * m,
            y <= y1 ==> d == 2 * dx * (y - y0 + 1) - dy - 2 * dy * m,
            -2 * dy - 2 * dy <= d <= 2 * dx + 2 * dx,
            forall|x: isize, y: isize| character.requires((x, y)),
            frame.wf(),
            frame.x == start.x,
            frame.y == start.y,
            forall|cx: int, cy: int|
                start.contains(cx, cy) ==> if y0 <= cy < y && on_high_line(
                    x0 as int,
                    y0 as int,
                    x1 as int,
                    y1 as int,
                    cx,
                    cy,
                ) {
                    character.ensures((cx as isize, cy as isize), #[trigger] frame.cell(cx, cy))
                } else {
                    frame.cell(cx, cy) == start.cell(cx, cy)
                },
        decreases y1 + 1 - y,
    {
        let c = character(x, y);
        let ghost before = *frame;
        frame.set_at_clipping(x, y, c);
        proof {
            if dy >= 1 {
                lemma_minor_step((y - y0) as int, dx as int, dy as int, m, d as int);
            }
            let k = (y - y0) as int;
            assert(2 * dx * (k + 2) == 2 * dx * (k + 1) + 2 * dx) by (nonlinear_arith);
            assert(2 * dy * (m + 1) == 2 * dy * m + 2 * dy) by (nonlinear_arith);
            assert(x == x0 + sign(x1 - x0) * minor_offset(y - y0, abs(x1 - x0), y1 - y0));
            assert forall|px: int, py: int| start.contains(px, py) implies if y0 <= py < y + 1
                && on_high_line(x0 as int, y0 as int, x1 as int, y1 as int, px, py) {
                character.ensures((px as isize, py as isize), #[trigger] frame.cell(px, py))
            } else {
                frame.cell(px, py) == start.cell(px, py)
            } by {
                lemma_grid_index(px, py, start.x as int, start.y as int);
                if y0 <= py < y && on_high_line(x0 as int, y0 as int, x1 as int, y1 as int, px, py) {
                    assert(character.ensures((px as isize, py as isize), before.cell(px, py)));
                } else {
                    assert(before.cell(px, py) == start.cell(px, py));
                }
                if before.contains(x as int, y as int) {
                    lemma_grid_index(x as int, y as int, start.x as int, start.y as int);
                    if before.index_of(px, py) == before.index_of(x as int, y as int) {
                        lemma_index_injective(px, py, x as int, y as int, start.x as int);
                    }
                }
            }
        }
        if d > 0 {
            x += xi;
            d += 2 * (dx - dy);
            proof {
                m = m + 1;
            }
        } else {
            d += 2 * dx;
        }
        y += 1;
    }
}

/// The cell coordinate of a position coordinate: `c / PIXEL`, rounded toward zero.
pub open spec fn cell_of(c: int) -> int {
    if c >= 0 {
        c / PIXEL as int
    } else {
        -((-c) / PIXEL as int)
    }
}

fn to_cell(c: i32) -> (r: isize)
    ensures
        r == cell_of(c as int),
        in_limit(r as int),
{
    if c >= 0 {
        (c / PIXEL) as isize
    } else {
        -(((-(c as i64)) / PIXEL as i64) as isize)
    }
}

/// The cells that `plot_line` sets for a line from `start` to `end`: the ends
/// are taken to their cells, then the line is stepped along its longer axis
/// from the end with the smaller coordinate there.
pub open spec fn line_cells(start: Point, end: Point, cx: int, cy: int) -> bool {
    let x0 = cell_of(start.x as int);
    let y0 = cell_of(start.y as int);
    let x1 = cell_of(end.x as int);
    let y1 = cell_of(end.y as int);
    if abs(y1 - y0) < abs(x1 - x0) {
        if x0 > x1 {
            on_low_line(x1, y1, x0, y0, cx, cy)
        } else {
            on_low_line(x0, y0, x1, y1, cx, cy)
        }
    } else {
        if y0 > y1 {
            on_high_line(x1, y1, x0, y0, cx, cy)
        } else {
            on_high_line(x0, y0, x1, y1, cx, cy)
        }
    }
}

/// Plots the line from `start` to `end`, both ends included: each cell of
/// `line_cells` that lies in the frame is set to what `character` gives for
/// it; every other cell is kept.
pub fn plot_line<F: Fn(isize, isize) -> Character>(
    frame: &mut Frame,
    start: Point,
    end: Point,
    character: &F,
)
    requires
        old(frame).wf(),
        forall|x: isize, y: isize| character.requires((x, y)),
    ensures
        final(frame).x == old(frame).x,
        final(frame).y == old(frame).y,
        final(frame).wf(),
        forall|cx: int, cy: int|
            old(frame).contains(cx, cy) ==> if line_cells(start, end, cx, cy) {
                character.ensures((cx as isize, cy as isize), #[trigger] final(frame).cell(cx, cy))
            } else {
                final(frame).cell(cx, cy) == old(frame).cell(cx, cy)
            },
{
    let x0 = to_cell(start.x);
    let y0 = to_cell(start.y);
    let x1 = to_cell(end.x);
    let y1 = to_cell(end.y);
    let ady = if y1 - y0 < 0 {
        y0 - y1
    } else {
        y1 - y0
    };
    let adx = if x1 - x0 < 0 {
        x0 - x1
    } else {
        x1 - x0
    };
    if ady < adx {
        if x0 > x1 {
            plot_line_low(frame, x1, y1, x0, y0, character);
        } else {
            plot_line_low(frame, x0, y0, x1, y1, character);
        }
    } else {
        if y0 > y1 {
            plot_line_high(frame, x1, y1, x0, y0, character);
        } else {
            plot_line_high(frame, x0, y0, x1, y1, character);
        }
    }
}

proof fn lemma_no_minor_offset(k: int, b: int)
    ensures
        minor_offset(k, 0, b) == 0,
{
    if b > 0 {
        assert(2 * k * 0 == 0) by (nonlinear_arith);
        vstd::arithmetic::div_mod::lemma_fundamental_div_mod_converse(b - 1, 2 * b, 0, b - 1);
    }
}

/// A line whose ends lie in one row covers exactly the cells of that row
/// between them; one whose ends lie in one column, exactly the cells of that
/// column between them.
pub proof fn lemma_straight_lines(start: Point, end: Point, cx: int, cy: int)
    ensures
        cell_of(start.y as int) == cell_of(end.y as int) && cell_of(start.x as int) != cell_of(
            end.x as int,
        ) ==> (line_cells(start, end, cx, cy) <==> cy == cell_of(start.y as int) && (cell_of(
            start.x as int,
        ) <= cx <= cell_of(end.x as int) || cell_of(end.x as int) <= cx <= cell_of(
            start.x as int,
        ))),
        cell_of(start.x as int) == cell_of(end.x as int) ==> (line_cells(start, end, cx, cy)
            <==> cx == cell_of(start.x as int) && (cell_of(start.y as int) <= cy <= cell_of(
            end.y as int) || cell_of(end.y as int) <= cy <= cell_of(start.y as int))),
{
    let x0 = cell_of(start.x as int);
    let x1 = cell_of(end.x as int);
    let y0 = cell_of(start.y as int);
    let y1 = cell_of(end.y as int);
    if x0 <= x1 {
        lemma_no_minor_offset(cx - x0, x1 - x0);
        lemma_no_minor_offset(cy - y0, y1 - y0);
        lemma_no_minor_offset(cy - y1, y0 - y1);
    } else {
        lemma_no_minor_offset(cx - x1, x0 - x1);
        lemma_no_minor_offset(cy - y0, y1 - y0);
        lemma_no_minor_offset(cy - y1, y0 - y1);
    }
}

/// `p` lies in the closed rectangle `[x_min, x_max] x [y_min, y_max]`.
pub open spec fn inside(p: Point, x_min: int, x_max: int, y_min: int, y_max: int) -> bool {
    x_min <= p.x <= x_max && y_min <= p.y <= y_max
}

/// Signed distance of `p` inside edge `i` of the rectangle (left, right, top,
/// bottom); negative means outside that edge.
pub open spec fn edge(p: Point, i: int, x_min: int, x_max: int, y_min: int, y_max: int) -> int {
    if i == 0 {
        p.x - x_min
    } else if i == 1 {
        x_max - p.x
    } else if i == 2 {
        y_max - p.y
    } else {
        p.y - y_min
    }
}

/// A ratio `n / d` with `d > 0`, as a pair.
pub open spec fn ratio_lt(a: (int, int), b: (int, int)) -> bool {
    a.0 * b.1 < b.0 * a.1
}

/// The larger of two ratios (the first on a tie).
pub open spec fn ratio_max(a: (int, int), b: (int, int)) -> (int, int) {
    if ratio_lt(a, b) {
        b
    } else {
        a
    }
}

/// The smaller of two ratios (the first on a tie).
pub open spec fn ratio_min(a: (int, int), b: (int, int)) -> (int, int) {
    if ratio_lt(b, a) {
        b
    } else {
        a
    }
}

/// The parameter `o1 / (o1 - o2)` at which the segment meets an edge whose
/// signed distances at the two ends are `o1` and `o2`, with a positive
/// denominator.
pub open spec fn crossing(o1: int, o2: int) -> (int, int) {
    if o1 - o2 < 0 {
        (-o1, o2 - o1)
    } else {
        (o1, o1 - o2)
    }
}

/// The entry parameter after the first `k` edges: starting at 0, raised to the
/// crossing of each edge that the first point lies outside.
pub open spec fn entry_upto(
    p1: Point,
    p2: Point,
    x_min: int,
    x_max: int,
    y_min: int,
    y_max: int,
    k: int,
) -> (int, int)
    decreases k,
{
    if k <= 0 {
        (0, 1)
    } else {
        let acc = entry_upto(p1, p2, x_min, x_max, y_min, y_max, k - 1);
        let o1 = edge(p1, k - 1, x_min, x_max, y_min, y_max);
        let o2 = edge(p2, k - 1, x_min, x_max, y_min, y_max);
        if o1 < 0 {
            ratio_max(acc, crossing(o1, o2))
        } else {
            acc
        }
    }
}

/// The exit parameter after the first `k` edges: starting at 1, lowered to the
/// crossing of each edge that only the second point lies outside.
pub open spec fn exit_upto(
    p1: Point,
    p2: Point,
    x_min: int,
    x_max: int,
    y_min: int,
    y_max: int,
    k: int,
) -> (int, int)
    decreases k,
{
    if k <= 0 {
        (1, 1)
    } else {
        let acc = exit_upto(p1, p2, x_min, x_max, y_min, y_max, k - 1);
        let o1 = edge(p1, k - 1, x_min, x_max, y_min, y_max);
        let o2 = edge(p2, k - 1, x_min, x_max, y_min, y_max);
        if o1 >= 0 && o2 < 0 {
            ratio_min(acc, crossing(o1, o2))
        } else {
            acc
        }
    }
}

/// `delta * n / d`, rounded toward zero.
pub open spec fn offset(delta: int, a: (int, int)) -> int {
    if delta >= 0 {
        delta * a.0 / a.1
    } else {
        -((-delta) * a.0 / a.1)
    }
}

/// The point at parameter `a` on the segment from `p1` to `p2`, each
/// coordinate rounded toward `p1`.
pub open spec fn point_at(p1: Point, p2: Point, a: (int, int)) -> Point {
    Point {
        x: (p1.x + offset(p2.x - p1.x, a)) as i32,
        y: (p1.y + offset(p2.y - p1.y, a)) as i32,
    }
}

/// Both points lie outside one and the same edge.
pub open spec fn separated(
    p1: Point,
    p2: Point,
    x_min: int,
    x_max: int,
    y_min: int,
    y_max: int,
) -> bool {
    ||| p1.x < x_min && p2.x < x_min
    ||| p1.x > x_max && p2.x > x_max
    ||| p1.y > y_max && p2.y > y_max
    ||| p1.y < y_min && p2.y < y_min
}

/// The part of the segment from `p1` to `p2` inside the rectangle, by the
/// parametric (Liang-Barsky) method: the segment itself if both ends are
/// inside, nothing if both lie outside one edge, else the points at the entry
/// and exit parameters, or nothing if the segment enters after it leaves.
pub open spec fn clipped(
    p1: Point,
    p2: Point,
    x_min: int,
    x_max: int,
    y_min: int,
    y_max: int,
) -> Option<(Point, Point)> {
    if inside(p1, x_min, x_max, y_min, y_max) && inside(p2, x_min, x_max, y_min, y_max) {
        Some((p1, p2))
    } else if separated(p1, p2, x_min, x_max, y_min, y_max) {
        None
    } else {
        let a = entry_upto(p1, p2, x_min, x_max, y_min, y_max, 4);
        let b = exit_upto(p1, p2, x_min, x_max, y_min, y_max, 4);
        if ratio_lt(b, a) {
            None
        } else {
            Some((point_at(p1, p2, a), point_at(p1, p2, b)))
        }
    }
}

fn edge_value(p: Point, i: usize, x_min: i32, x_max: i32, y_min: i32, y_max: i32) -> (e: i64)
    ensures
        e == edge(p, i as int, x_min as int, x_max as int, y_min as int, y_max as int),
{
    if i == 0 {
        p.x as i64 - x_min as i64
    } else if i == 1 {
        x_max as i64 - p.x as i64
    } else if i == 2 {
        y_max as i64 - p.y as i64
    } else {
        p.y as i64 - y_min as i64
    }
}

fn crossing_value(o1: i64, o2: i64) -> (r: (i128, i128))
    requires
        -0x2_0000_0000 <= o1 <= 0x2_0000_0000,
        -0x2_0000_0000 <= o2 <= 0x2_0000_0000,
    ensures
        r.0 == crossing(o1 as int, o2 as int).0,
        r.1 == crossing(o1 as int, o2 as int).1,
{
    if (o1 as i128) - (o2 as i128) < 0 {
        (-(o1 as i128), o2 as i128 - o1 as i128)
    } else {
        (o1 as i128, o1 as i128 - o2 as i128)
    }
}

/// `a < b` for ratios with numerators and denominators below `2^34` in size.
fn ratio_less(a: (i128, i128), b: (i128, i128)) -> (r: bool)
    requires
        -0x4_0000_0000 <= a.0 <= 0x4_0000_0000,
        0 < a.1 <= 0x4_0000_0000,
        -0x4_0000_0000 <= b.0 <= 0x4_0000_0000,
        0 < b.1 <= 0x4_0000_0000,
    ensures
        r == ratio_lt((a.0 as int, a.1 as int), (b.0 as int, b.1 as int)),
{
    proof {
        lemma_small_product(a.0 as int, b.1 as int);
        lemma_small_product(b.0 as int, a.1 as int);
    }
    a.0 * b.1 < b.0 * a.1
}

proof fn lemma_small_product(a: int, b: int)
    requires
        -0x4_0000_0000 <= a <= 0x4_0000_0000,
        -0x4_0000_0000 <= b <= 0x4_0000_0000,
    ensures
        -0x10_0000_0000_0000_0000 <= a * b <= 0x10_0000_0000_0000_0000,
{
    assert(-0x10_0000_0000_0000_0000 <= a * b <= 0x10_0000_0000_0000_0000) by (nonlinear_arith)
        requires
            -0x4_0000_0000 <= a <= 0x4_0000_0000,
            -0x4_0000_0000 <= b <= 0x4_0000_0000,
    ;
}

/// A ratio in `[0, 1]` with a positive denominator.
pub open spec fn unit_ratio(a: (int, int)) -> bool {
    0 < a.1 && 0 <= a.0 <= a.1
}

/// `delta * a` rounded toward zero lies between 0 and `delta`.
proof fn lemma_offset_between(delta: int, a: (int, int))
    requires
        unit_ratio(a),
    ensures
        delta >= 0 ==> 0 <= offset(delta, a) <= delta,
        delta < 0 ==> delta <= offset(delta, a) <= 0,
{
    let m = if delta >= 0 {
        delta
    } else {
        -delta
    };
    assert(0 <= m * a.0 <= m * a.1) by (nonlinear_arith)
        requires
            0 <= m,
            0 <= a.0 <= a.1,
    ;
    vstd::arithmetic::div_mod::lemma_div_is_ordered(m * a.0, m * a.1, a.1);
    vstd::arithmetic::div_mod::lemma_div_multiples_vanish(m, a.1);
    assert(a.1 * m == m * a.1) by (nonlinear_arith);
    vstd::arithmetic::div_mod::lemma_div_pos_is_pos(m * a.0, a.1);
}

fn offset_value(delta: i64, a: (i128, i128)) -> (r: i64)
    requires
        -0x1_0000_0000 <= delta <= 0x1_0000_0000,
        unit_ratio((a.0 as int, a.1 as int)),
        a.1 <= 0x4_0000_0000,
    ensures
        r == offset(delta as int, (a.0 as int, a.1 as int)),
{
    proof {
        lemma_offset_between(delta as int, (a.0 as int, a.1 as int));
        lemma_small_product(delta as int, a.0 as int);
        lemma_small_product(-delta as int, a.0 as int);
    }
    if delta >= 0 {
        (delta as i128 * a.0 / a.1) as i64
    } else {
        (-((-(delta as i128)) * a.0 / a.1)) as i64
    }
}

/// The part of the segment from `p1` to `p2` that lies inside the rectangle
/// `[x_min, x_max] x [y_min, y_max]`, as `clipped` states it.
pub fn clip(p1: Point, p2: Point, x_min: i32, x_max: i32, y_min: i32, y_max: i32) -> (r: Option<
    (Point, Point),
>)
    ensures
        r == clipped(p1, p2, x_min as int, x_max as int, y_min as int, y_max as int),
{
    let ghost (xl, xh, yl, yh) = (x_min as int, x_max as int, y_min as int, y_max as int);
    // trivial accept
    if x_min <= p1.x && p1.x <= x_max && y_min <= p1.y && p1.y <= y_max && x_min <= p2.x && p2.x
        <= x_max && y_min <= p2.y && p2.y <= y_max {
        return Some((p1, p2));
    }
    // trivial reject

    if (p1.x < x_min && p2.x < x_min) || (p1.x > x_max && p2.x > x_max) || (p1.y > y_max && p2.y
        > y_max) || (p1.y < y_min && p2.y < y_min) {
        return None;
    }
    assert(forall|j: int|
        0 <= j < 4 ==> !(#[trigger] edge(p1, j, xl, xh, yl, yh) < 0 && edge(p2, j, xl, xh, yl, yh)
            < 0));
    let mut a_min: (i128, i128) = (0, 1);
    let mut a_max: (i128, i128) = (1, 1);
    let mut i: usize = 0;
    while i < 4
        invariant
            i <= 4,
            xl == x_min,
            xh == x_max,
            yl == y_min,
            yh == y_max,
            a_min.0 == entry_upto(p1, p2, xl, xh, yl, yh, i as int).0,
            a_min.1 == entry_upto(p1, p2, xl, xh, yl, yh, i as int).1,
            a_max.0 == exit_upto(p1, p2, xl, xh, yl, yh, i as int).0,
            a_max.1 == exit_upto(p1, p2, xl, xh, yl, yh, i as int).1,
            unit_ratio((a_min.0 as int, a_min.1 as int)),
            unit_ratio((a_max.0 as int, a_max.1 as int)),
            a_min.1 <= 0x2_0000_0000,
            a_max.1 <= 0x2_0000_0000,
            forall|j: int|
                0 <= j < 4 ==> !(#[trigger] edge(p1, j, xl, xh, yl, yh) < 0 && edge(
                    p2,
                    j,
                    xl,
                    xh,
                    yl,
                    yh,
                ) < 0),
        decreases 4 - i,
    {
        let o1 = edge_value(p1, i, x_min, x_max, y_min, y_max);
        let o2 = edge_value(p2, i, x_min, x_max, y_min, y_max);
        assert(!(edge(p1, i as int, xl, xh, yl, yh) < 0 && edge(p2, i as int, xl, xh, yl, yh) < 0));
        if o1 < 0 {
            let a_s = crossing_value(o1, o2);
            assert(unit_ratio((a_s.0 as int, a_s.1 as int)));
            if ratio_less(a_min, a_s) {
                a_min = a_s;
            }
        } else if o2 < 0 {
            let a_s = crossing_value(o1, o2);
            assert(unit_ratio((a_s.0 as int, a_s.1 as int)));
            if ratio_less(a_s, a_max) {
                a_max = a_s;
            }
        }
        i += 1;
    }
    if ratio_less(a_max, a_min) {
        return None;
    }
    proof {
        lemma_offset_between(p2.x - p1.x, (a_min.0 as int, a_min.1 as int));
        lemma_offset_between(p2.y - p1.y, (a_min.0 as int, a_min.1 as int));
        lemma_offset_between(p2.x - p1.x, (a_max.0 as int, a_max.1 as int));
        lemma_offset_between(p2.y - p1.y, (a_max.0 as int, a_max.1 as int));
    }
    let q1 = Point {
        x: (p1.x as i64 + offset_value(p2.x as i64 - p1.x as i64, a_min)) as i32,
        y: (p1.y as i64 + offset_value(p2.y as i64 - p1.y as i64, a_min)) as i32,
    };
    let q2 = Point {
        x: (p1.x as i64 + offset_value(p2.x as i64 - p1.x as i64, a_max)) as i32,
        y: (p1.y as i64 + offset_value(p2.y as i64 - p1.y as i64, a_max)) as i32,
    };
    Some((q1, q2))
}

/// `a <= b <= c` as ratios gives `a <= c`.
proof fn lemma_ratio_trans(a: (int, int), b: (int, int), c: (int, int))
    requires
        a.1 > 0,
        b.1 > 0,
        c.1 > 0,
        !ratio_lt(b, a),
        !ratio_lt(c, b),
    ensures
        !ratio_lt(c, a),
{
    assert(a.0 * c.1 <= c.0 * a.1) by (nonlinear_arith)
        requires
            a.1 > 0,
            b.1 > 0,
            c.1 > 0,
            a.0 * b.1 <= b.0 * a.1,
            b.0 * c.1 <= c.0 * b.1,
    ;
}

/// No edge has both points outside it.
pub open spec fn no_shared_outside(
    p1: Point,
    p2: Point,
    x_min: int,
    x_max: int,
    y_min: int,
    y_max: int,
) -> bool {
    forall|j: int|
        0 <= j < 4 ==> !(#[trigger] edge(p1, j, x_min, x_max, y_min, y_max) < 0 && edge(
            p2,
            j,
            x_min,
            x_max,
            y_min,
            y_max,
        ) < 0)
}

proof fn lemma_entry_bounds(
    p1: Point,
    p2: Point,
    x_min: int,
    x_max: int,
    y_min: int,
    y_max: int,
    k: int,
)
    requires
        0 <= k <= 4,
        no_shared_outside(p1, p2, x_min, x_max, y_min, y_max),
    ensures
        unit_ratio(entry_upto(p1, p2, x_min, x_max, y_min, y_max, k)),
        forall|j: int|
            0 <= j < k && edge(p1, j, x_min, x_max, y_min, y_max) < 0 ==> !ratio_lt(
                #[trigger] entry_upto(p1, p2, x_min, x_max, y_min, y_max, k),
                crossing(
                    edge(p1, j, x_min, x_max, y_min, y_max),
                    edge(p2, j, x_min, x_max, y_min, y_max),
                ),
            ),
    decreases k,
{
    if k > 0 {
        lemma_entry_bounds(p1, p2, x_min, x_max, y_min, y_max, k - 1);
        let acc = entry_upto(p1, p2, x_min, x_max, y_min, y_max, k - 1);
        let cur = entry_upto(p1, p2, x_min, x_max, y_min, y_max, k);
        let o1 = edge(p1, k - 1, x_min, x_max, y_min, y_max);
        let o2 = edge(p2, k - 1, x_min, x_max, y_min, y_max);
        assert(!ratio_lt(cur, acc));
        assert forall|j: int|
            0 <= j < k && edge(p1, j, x_min, x_max, y_min, y_max) < 0 implies !ratio_lt(
            cur,
            crossing(
                edge(p1, j, x_min, x_max, y_min, y_max),
                edge(p2, j, x_min, x_max, y_min, y_max),
            ),
        ) by {
            let c = crossing(
                edge(p1, j, x_min, x_max, y_min, y_max),
                edge(p2, j, x_min, x_max, y_min, y_max),
            );
            if j < k - 1 {
                lemma_ratio_trans(c, acc, cur);
            }
        }
    }
}

proof fn lemma_exit_bounds(
    p1: Point,
    p2: Point,
    x_min: int,
    x_max: int,
    y_min: int,
    y_max: int,
    k: int,
)
    requires
        0 <= k <= 4,
    ensures
        unit_ratio(exit_upto(p1, p2, x_min, x_max, y_min, y_max, k)),
        forall|j: int|
            0 <= j < k && edge(p1, j, x_min, x_max, y_min, y_max) >= 0 && edge(
                p2,
                j,
                x_min,
                x_max,
                y_min,
                y_max,
            ) < 0 ==> !ratio_lt(
                crossing(
                    edge(p1, j, x_min, x_max, y_min, y_max),
                    edge(p2, j, x_min, x_max, y_min, y_max),
                ),
                #[trigger] exit_upto(p1, p2, x_min, x_max, y_min, y_max, k),
            ),
    decreases k,
{
    if k > 0 {
        lemma_exit_bounds(p1, p2, x_min, x_max, y_min, y_max, k - 1);
        let acc = exit_upto(p1, p2, x_min, x_max, y_min, y_max, k - 1);
        let cur = exit_upto(p1, p2, x_min, x_max, y_min, y_max, k);
        assert(!ratio_lt(acc, cur));
        assert forall|j: int|
            0 <= j < k && edge(p1, j, x_min, x_max, y_min, y_max) >= 0 && edge(
                p2,
                j,
                x_min,
                x_max,
                y_min,
                y_max,
            ) < 0 implies !ratio_lt(
            crossing(
                edge(p1, j, x_min, x_max, y_min, y_max),
                edge(p2, j, x_min, x_max, y_min, y_max),
            ),
            cur,
        ) by {
            let c = crossing(
                edge(p1, j, x_min, x_max, y_min, y_max),
                edge(p2, j, x_min, x_max, y_min, y_max),
            );
            if j < k - 1 {
                lemma_ratio_trans(cur, acc, c);
            }
        }
    }
}

/// The signed distance inside an edge at parameter `a`, times `a`'s denominator.
pub open spec fn along(o1: int, o2: int, a: (int, int)) -> int {
    o1 * a.1 + (o2 - o1) * a.0
}

proof fn lemma_along_nonneg(o1: int, o2: int, lo: (int, int), hi: (int, int))
    requires
        unit_ratio(lo),
        unit_ratio(hi),
        !ratio_lt(hi, lo),
        !(o1 < 0 && o2 < 0),
        o1 < 0 ==> !ratio_lt(lo, crossing(o1, o2)),
        o1 >= 0 && o2 < 0 ==> !ratio_lt(crossing(o1, o2), hi),
    ensures
        along(o1, o2, lo) >= 0,
        along(o1, o2, hi) >= 0,
{
    let c = crossing(o1, o2);
    if o1 < 0 {
        lemma_ratio_trans(c, lo, hi);
        assert(along(o1, o2, lo) >= 0 && along(o1, o2, hi) >= 0) by (nonlinear_arith)
            requires
                c == (-o1, o2 - o1),
                lo.0 * c.1 >= c.0 * lo.1,
                hi.0 * c.1 >= c.0 * hi.1,
        ;
    } else if o2 < 0 {
        lemma_ratio_trans(lo, hi, c);
        assert(along(o1, o2, lo) >= 0 && along(o1, o2, hi) >= 0) by (nonlinear_arith)
            requires
                c == (o1, o1 - o2),
                c.0 * lo.1 >= lo.0 * c.1,
                c.0 * hi.1 >= hi.0 * c.1,
        ;
    } else {
        assert(along(o1, o2, lo) >= 0 && along(o1, o2, hi) >= 0) by (nonlinear_arith)
            requires
                o1 >= 0,
                o2 >= 0,
                unit_ratio(lo),
                unit_ratio(hi),
        ;
    }
}

/// `lo * d <= e <= hi * d` gives `lo <= e / d <= hi`.
proof fn lemma_quotient_between(e: int, d: int, lo: int, hi: int)
    requires
        d > 0,
        lo * d <= e <= hi * d,
    ensures
        lo <= e / d <= hi,
{
    vstd::arithmetic::div_mod::lemma_div_is_ordered(lo * d, e, d);
    vstd::arithmetic::div_mod::lemma_div_is_ordered(e, hi * d, d);
    vstd::arithmetic::div_mod::lemma_div_multiples_vanish(lo, d);
    vstd::arithmetic::div_mod::lemma_div_multiples_vanish(hi, d);
    assert(d * lo == lo * d && d * hi == hi * d) by (nonlinear_arith);
}

/// A coordinate moved from `c1` toward `c2` by parameter `a` and rounded toward
/// `c1` stays in `[lo, hi]` when the exact value does.
proof fn lemma_rounded_between(c1: int, c2: int, lo: int, hi: int, a: (int, int))
    requires
        unit_ratio(a),
        along(c1 - lo, c2 - lo, a) >= 0,
        along(hi - c1, hi - c2, a) >= 0,
    ensures
        lo <= c1 + offset(c2 - c1, a) <= hi,
{
    let delta = c2 - c1;
    let (n, d) = a;
    assert((lo - c1) * d <= delta * n <= (hi - c1) * d) by (nonlinear_arith)
        requires
            delta == c2 - c1,
            a == (n, d),
            along(c1 - lo, c2 - lo, a) >= 0,
            along(hi - c1, hi - c2, a) >= 0,
    ;
    if delta >= 0 {
        lemma_quotient_between(delta * n, d, lo - c1, hi - c1);
    } else {
        assert((c1 - hi) * d <= (-delta) * n <= (c1 - lo) * d) by (nonlinear_arith)
            requires
                (lo - c1) * d <= delta * n <= (hi - c1) * d,
        ;
        lemma_quotient_between((-delta) * n, d, c1 - hi, c1 - lo);
    }
}

proof fn lemma_point_inside(
    p1: Point,
    p2: Point,
    x_min: int,
    x_max: int,
    y_min: int,
    y_max: int,
    a: (int, int),
)
    requires
        unit_ratio(a),
        forall|j: int|
            0 <= j < 4 ==> along(
                #[trigger] edge(p1, j, x_min, x_max, y_min, y_max),
                edge(p2, j, x_min, x_max, y_min, y_max),
                a,
            ) >= 0,
        x_min <= x_max,
        y_min <= y_max,
        i32::MIN <= x_min && x_max <= i32::MAX,
        i32::MIN <= y_min && y_max <= i32::MAX,
    ensures
        inside(point_at(p1, p2, a), x_min, x_max, y_min, y_max),
{
    assert(along(edge(p1, 0, x_min, x_max, y_min, y_max), edge(p2, 0, x_min, x_max, y_min, y_max), a) >= 0);
    assert(along(edge(p1, 1, x_min, x_max, y_min, y_max), edge(p2, 1, x_min, x_max, y_min, y_max), a) >= 0);
    assert(along(edge(p1, 2, x_min, x_max, y_min, y_max), edge(p2, 2, x_min, x_max, y_min, y_max), a) >= 0);
    assert(along(edge(p1, 3, x_min, x_max, y_min, y_max), edge(p2, 3, x_min, x_max, y_min, y_max), a) >= 0);
    lemma_rounded_between(p1.x as int, p2.x as int, x_min, x_max, a);
    lemma_rounded_between(p1.y as int, p2.y as int, y_min, y_max, a);
}

/// Whatever `clip` returns lies inside the rectangle.
pub proof fn lemma_clip_inside(p1: Point, p2: Point, x_min: i32, x_max: i32, y_min: i32, y_max: i32)
    ensures
        clipped(p1, p2, x_min as int, x_max as int, y_min as int, y_max as int) matches Some(
            (q1, q2),
        ) ==> inside(q1, x_min as int, x_max as int, y_min as int, y_max as int) && inside(
            q2,
            x_min as int,
            x_max as int,
            y_min as int,
            y_max as int,
        ),
{
    let (xl, xh, yl, yh) = (x_min as int, x_max as int, y_min as int, y_max as int);
    if !(inside(p1, xl, xh, yl, yh) && inside(p2, xl, xh, yl, yh)) && !separated(
        p1,
        p2,
        xl,
        xh,
        yl,
        yh,
    ) {
        let a = entry_upto(p1, p2, xl, xh, yl, yh, 4);
        let b = exit_upto(p1, p2, xl, xh, yl, yh, 4);
        if !ratio_lt(b, a) {
            assert(no_shared_outside(p1, p2, xl, xh, yl, yh));
            lemma_entry_bounds(p1, p2, xl, xh, yl, yh, 4);
            lemma_exit_bounds(p1, p2, xl, xh, yl, yh, 4);
            assert forall|j: int| 0 <= j < 4 implies along(
                #[trigger] edge(p1, j, xl, xh, yl, yh),
                edge(p2, j, xl, xh, yl, yh),
                a,
            ) >= 0 && along(edge(p1, j, xl, xh, yl, yh), edge(p2, j, xl, xh, yl, yh), b) >= 0 by {
                lemma_along_nonneg(edge(p1, j, xl, xh, yl, yh), edge(p2, j, xl, xh, yl, yh), a, b);
            }
            if xl <= xh && yl <= yh {
                lemma_point_inside(p1, p2, xl, xh, yl, yh, a);
                lemma_point_inside(p1, p2, xl, xh, yl, yh, b);
            } else {
                // an empty rectangle: some edge pair contradicts
                assert(along(edge(p1, 0, xl, xh, yl, yh), edge(p2, 0, xl, xh, yl, yh), a) >= 0);
                assert(along(edge(p1, 1, xl, xh, yl, yh), edge(p2, 1, xl, xh, yl, yh), a) >= 0);
                assert(along(edge(p1, 2, xl, xh, yl, yh), edge(p2, 2, xl, xh, yl, yh), a) >= 0);
                assert(along(edge(p1, 3, xl, xh, yl, yh), edge(p2, 3, xl, xh, yl, yh), a) >= 0);
                assert((xh - xl) * a.1 >= 0 && (yh - yl) * a.1 >= 0) by (nonlinear_arith)
                    requires
                        along(edge(p1, 0, xl, xh, yl, yh), edge(p2, 0, xl, xh, yl, yh), a) >= 0,
                        along(edge(p1, 1, xl, xh, yl, yh), edge(p2, 1, xl, xh, yl, yh), a) >= 0,
                        along(edge(p1, 2, xl, xh, yl, yh), edge(p2, 2, xl, xh, yl, yh), a) >= 0,
                        along(edge(p1, 3, xl, xh, yl, yh), edge(p2, 3, xl, xh, yl, yh), a) >= 0,
                ;
                assert(a.1 > 0);
                assert(xh - xl >= 0 && yh - yl >= 0) by (nonlinear_arith)
                    requires
                        (xh - xl) * a.1 >= 0,
                        (yh - yl) * a.1 >= 0,
                        a.1 > 0,
                ;
            }
        }
    }
}

/// Clipping a clipped segment again with the same rectangle returns it unchanged.
pub proof fn lemma_clip_idempotent(
    p1: Point,
    p2: Point,
    x_min: i32,
    x_max: i32,
    y_min: i32,
    y_max: i32,
)
    ensures
        clipped(p1, p2, x_min as int, x_max as int, y_min as int, y_max as int) matches Some(
            (q1, q2),
        ) ==> clipped(q1, q2, x_min as int, x_max as int, y_min as int, y_max as int) == Some(
            (q1, q2),
        ),
{
    lemma_clip_inside(p1, p2, x_min, x_max, y_min, y_max);
}

/// A segment with both ends inside comes back unchanged; one with both ends
/// outside the same edge gives nothing.
pub proof fn lemma_clip_trivial(p1: Point, p2: Point, x_min: int, x_max: int, y_min: int, y_max: int)
    ensures
        inside(p1, x_min, x_max, y_min, y_max) && inside(p2, x_min, x_max, y_min, y_max) ==> clipped(
            p1,
            p2,
            x_min,
            x_max,
            y_min,
            y_max,
        ) == Some((p1, p2)),
        separated(p1, p2, x_min, x_max, y_min, y_max) ==> clipped(
            p1,
            p2,
            x_min,
            x_max,
            y_min,
            y_max,
        ) is None,
{
}

/// Only edge `i` of the rectangle has `q` outside it.
pub open spec fn outside_only(
    q: Point,
    i: int,
    x_min: int,
    x_max: int,
    y_min: int,
    y_max: int,
) -> bool {
    &&& 0 <= i < 4
    &&& edge(q, i, x_min, x_max, y_min, y_max) < 0
    &&& forall|j: int|
        0 <= j < 4 && j != i ==> #[trigger] edge(q, j, x_min, x_max, y_min, y_max) >= 0
}

/// The point at the crossing of edge `i`, measured from `p1`, lies on that edge.
proof fn lemma_crossing_on_edge(
    p1: Point,
    p2: Point,
    x_min: int,
    x_max: int,
    y_min: int,
    y_max: int,
    i: int,
    c: (int, int),
)
    requires
        0 <= i < 4,
        c == crossing(
            edge(p1, i, x_min, x_max, y_min, y_max),
            edge(p2, i, x_min, x_max, y_min, y_max),
        ),
        edge(p1, i, x_min, x_max, y_min, y_max) != edge(p2, i, x_min, x_max, y_min, y_max),
        i32::MIN <= x_min <= i32::MAX,
        i32::MIN <= x_max <= i32::MAX,
        i32::MIN <= y_min <= i32::MAX,
        i32::MIN <= y_max <= i32::MAX,
    ensures
        edge(point_at(p1, p2, c), i, x_min, x_max, y_min, y_max) == 0,
{
    let o1 = edge(p1, i, x_min, x_max, y_min, y_max);
    let o2 = edge(p2, i, x_min, x_max, y_min, y_max);
    let dx = p2.x - p1.x;
    let dy = p2.y - p1.y;
    if i == 0 || i == 1 {
        let m = if dx >= 0 { dx } else { -dx };
        vstd::arithmetic::div_mod::lemma_div_multiples_vanish(c.0, m);
        assert(m * c.0 == c.0 * m) by (nonlinear_arith);
        assert(offset(dx, c) == if i == 0 { -o1 } else { o1 });
    } else {
        let m = if dy >= 0 { dy } else { -dy };
        vstd::arithmetic::div_mod::lemma_div_multiples_vanish(c.0, m);
        assert(m * c.0 == c.0 * m) by (nonlinear_arith);
        assert(offset(dy, c) == if i == 3 { -o1 } else { o1 });
    }
}

/// A segment that starts inside and leaves through exactly one edge keeps its
/// start, and its new end lies on that edge; likewise, reversed, for one that
/// enters through exactly one edge and ends inside.
pub proof fn lemma_clip_one_edge(
    p1: Point,
    p2: Point,
    x_min: i32,
    x_max: i32,
    y_min: i32,
    y_max: i32,
    i: int,
)
    ensures
        inside(p1, x_min as int, x_max as int, y_min as int, y_max as int) && outside_only(
            p2,
            i,
            x_min as int,
            x_max as int,
            y_min as int,
            y_max as int,
        ) ==> (clipped(p1, p2, x_min as int, x_max as int, y_min as int, y_max as int) matches Some(
            (q1, q2),
        ) && q1 == p1 && edge(q2, i, x_min as int, x_max as int, y_min as int, y_max as int) == 0),
        outside_only(p1, i, x_min as int, x_max as int, y_min as int, y_max as int) && inside(
            p2,
            x_min as int,
            x_max as int,
            y_min as int,
            y_max as int,
        ) ==> (clipped(p1, p2, x_min as int, x_max as int, y_min as int, y_max as int) matches Some(
            (q1, q2),
        ) && q2 == p2 && edge(q1, i, x_min as int, x_max as int, y_min as int, y_max as int) == 0),
{
    let (xl, xh, yl, yh) = (x_min as int, x_max as int, y_min as int, y_max as int);
    if inside(p1, xl, xh, yl, yh) && outside_only(p2, i, xl, xh, yl, yh) {
        let c = crossing(edge(p1, i, xl, xh, yl, yh), edge(p2, i, xl, xh, yl, yh));
        lemma_single_edge_params(p1, p2, xl, xh, yl, yh, i, 4);
        assert(point_at(p1, p2, (0, 1)).x == p1.x);
        assert(point_at(p1, p2, (0, 1)).y == p1.y);
        lemma_crossing_on_edge(p1, p2, xl, xh, yl, yh, i, c);
    }
    if outside_only(p1, i, xl, xh, yl, yh) && inside(p2, xl, xh, yl, yh) {
        let c = crossing(edge(p1, i, xl, xh, yl, yh), edge(p2, i, xl, xh, yl, yh));
        lemma_single_edge_params(p1, p2, xl, xh, yl, yh, i, 4);
        assert(point_at(p1, p2, (1, 1)).x == p2.x);
        assert(point_at(p1, p2, (1, 1)).y == p2.y);
        lemma_crossing_on_edge(p1, p2, xl, xh, yl, yh, i, c);
    }
}

proof fn lemma_single_edge_params(
    p1: Point,
    p2: Point,
    x_min: int,
    x_max: int,
    y_min: int,
    y_max: int,
    i: int,
    k: int,
)
    requires
        0 <= k <= 4,
        0 <= i < 4,
    ensures
        ({
            let c = crossing(
                edge(p1, i, x_min, x_max, y_min, y_max),
                edge(p2, i, x_min, x_max, y_min, y_max),
            );
            &&& inside(p1, x_min, x_max, y_min, y_max) && outside_only(
                p2,
                i,
                x_min,
                x_max,
                y_min,
                y_max,
            ) ==> entry_upto(p1, p2, x_min, x_max, y_min, y_max, k) == (0int, 1int) && exit_upto(
                p1,
                p2,
                x_min,
                x_max,
                y_min,
                y_max,
                k,
            ) == if i < k {
                c
            } else {
                (1int, 1int)
            }
            &&& outside_only(p1, i, x_min, x_max, y_min, y_max) && inside(
                p2,
                x_min,
                x_max,
                y_min,
                y_max,
            ) ==> exit_upto(p1, p2, x_min, x_max, y_min, y_max, k) == (1int, 1int) && entry_upto(
                p1,
                p2,
                x_min,
                x_max,
                y_min,
                y_max,
                k,
            ) == if i < k {
                c
            } else {
                (0int, 1int)
            }
        }),
    decreases k,
{
    if k > 0 {
        lemma_single_edge_params(p1, p2, x_min, x_max, y_min, y_max, i, k - 1);
        let j = k - 1;
        assert(edge(p1, j, x_min, x_max, y_min, y_max) == edge(p1, j, x_min, x_max, y_min, y_max));
        assert(edge(p2, j, x_min, x_max, y_min, y_max) == edge(p2, j, x_min, x_max, y_min, y_max));
    }
}

} // verus!

//! The frame buffer: a grid of glyphs with colors, stored row by row, and its
//! text form with terminal escape sequences.
use vstd::prelude::*;

pub use crate::color::{Color, HSVColor, FULL};
use crate::random::random_below;

verus! {

/// `y * w + x` lies inside a `w` by `h` grid when `x < w` and `y < h`.
pub proof fn lemma_grid_index(x: int, y: int, w: int, h: int)
    requires
        0 <= x < w,
        0 <= y < h,
    ensures
        0 <= y * w + x < w * h,
        y * w <= y * w + x < (y + 1) * w,
{
    assert(0 <= y * w + x < w * h && (y + 1) * w == y * w + w) by (nonlinear_arith)
        requires
            0 <= x < w,
            0 <= y < h,
    ;
}

/// Row `r` of a `w` by `h` grid spans indices `r * w` to `(r + 1) * w`.
pub proof fn lemma_row_span(r: int, w: int, h: int)
    requires
        0 <= r < h,
        0 <= w,
    ensures
        0 <= r * w <= (r + 1) * w <= w * h,
        (r + 1) * w == r * w + w,
{
    assert(0 <= r * w <= (r + 1) * w <= w * h && (r + 1) * w == r * w + w) by (nonlinear_arith)
        requires
            0 <= r < h,
            0 <= w,
    ;
}

/// The decimal digit `d` as a character.
pub open spec fn digit(d: int) -> char {
    ((48 + d) as u32) as char
}

/// The decimal representation of `n`, without leading zeros.
pub open spec fn decimal(n: nat) -> Seq<char>
    decreases n,
{
    if n < 10 {
        seq![digit(n as int)]
    } else {
        decimal(n / 10) + seq![digit((n % 10) as int)]
    }
}

/// The 8-bit terminal intensity of a channel: `c * 256 / FULL`, at most 255.
pub open spec fn channel_byte(c: u32) -> nat {
    let v = c * 256 / FULL as int;
    if v > 255 {
        255
    } else {
        v as nat
    }
}

/// Glyphs ordered from the most ink to the least.
pub open spec fn glyph_ramp() -> Seq<char> {
    "$@B%8&WM#*oahkbdpqwmZO0QLCJUYXzcvunxrjft/\\|()1{}[]?-_+~<>i!lI;:,\"^`'. "@
}

/// Number of glyphs in the ramp.
pub const RAMP_LEN: usize = 70;

/// The ramp position of a brightness `v` (in channel units): `v` clamped into
/// `[0, FULL]`, then `floor(v * RAMP_LEN / FULL)`, at most the last position.
pub open spec fn ramp_index(v: int) -> int {
    let c = if v < 0 {
        0
    } else if v > FULL {
        FULL as int
    } else {
        v
    };
    let i = c * RAMP_LEN / FULL as int;
    if i >= RAMP_LEN {
        RAMP_LEN - 1
    } else {
        i
    }
}

/// The glyph for a brightness `v` in channel units: dense glyphs for dark
/// values, sparse ones for bright values. Values outside `[0, FULL]` are
/// clamped first.
pub fn value_to_char(v: i64) -> (c: char)
    ensures
        0 <= ramp_index(v as int) < glyph_ramp().len(),
        c == glyph_ramp()[ramp_index(v as int)],
{
    let ramp = "$@B%8&WM#*oahkbdpqwmZO0QLCJUYXzcvunxrjft/\\|()1{}[]?-_+~<>i!lI;:,\"^`'. ";
    proof {
        reveal_strlit("$@B%8&WM#*oahkbdpqwmZO0QLCJUYXzcvunxrjft/\\|()1{}[]?-_+~<>i!lI;:,\"^`'. ");
    }
    let clamped: u64 = if v < 0 {
        0
    } else if v > FULL as i64 {
        FULL as u64
    } else {
        v as u64
    };
    let mut i: usize = (clamped * RAMP_LEN as u64 / FULL as u64) as usize;
    if i >= RAMP_LEN {
        i = RAMP_LEN - 1;
    }
    ramp.get_char(i)
}

/// The ramp index never decreases as the value grows; 0 maps to the first
/// glyph and `FULL` to the last.
pub proof fn lemma_ramp_monotonic(v1: int, v2: int)
    requires
        v1 <= v2,
    ensures
        ramp_index(v1) <= ramp_index(v2),
        ramp_index(0) == 0,
        ramp_index(FULL as int) == RAMP_LEN - 1,
{
    let c1 = if v1 < 0 {
        0
    } else if v1 > FULL {
        FULL as int
    } else {
        v1
    };
    let c2 = if v2 < 0 {
        0
    } else if v2 > FULL {
        FULL as int
    } else {
        v2
    };
    assert(c1 * RAMP_LEN <= c2 * RAMP_LEN) by (nonlinear_arith)
        requires
            c1 <= c2,
    ;
    vstd::arithmetic::div_mod::lemma_div_is_ordered(c1 * RAMP_LEN, c2 * RAMP_LEN, FULL as int);
}

/// One cell of a frame: a glyph and its color.
#[derive(Clone, Copy, Debug, PartialEq, Eq, Structural)]
pub struct Character {
    pub color: Color,
    pub character: char,
}

impl Character {
    /// The cell as text: a true-color foreground escape sequence, then the glyph.
    pub open spec fn escaped(self) -> Seq<char> {
        seq!['\x1b', '[', '3', '8', ';', '2', ';'] + decimal(channel_byte(self.color.r)) + seq![';']
            + decimal(channel_byte(self.color.g)) + seq![';'] + decimal(channel_byte(self.color.b))
            + seq!['m', self.character]
    }

    /// A black space.
    pub fn empty() -> (c: Character)
        ensures
            c == (Character { color: Color { r: 0, g: 0, b: 0 }, character: ' ' }),
    {
        Character { color: Color::black(), character: ' ' }
    }

    /// The cell's text form, as `escaped` states it.
    pub fn render(&self) -> (out: Vec<char>)
        ensures
            out@ == self.escaped(),
    {
        let mut out: Vec<char> = Vec::new();
        out.push('\x1b');
        out.push('[');
        out.push('3');
        out.push('8');
        out.push(';');
        out.push('2');
        out.push(';');
        push_decimal(&mut out, to_byte(self.color.r));
        out.push(';');
        push_decimal(&mut out, to_byte(self.color.g));
        out.push(';');
        push_decimal(&mut out, to_byte(self.color.b));
        out.push('m');
        out.push(self.character);
        assert(out@ =~= self.escaped());
        out
    }

    /// A printable ASCII glyph (codes 32 to 127) of random choice, in a vivid
    /// color of random hue.
    pub fn random() -> (c: Character)
        ensures
            32 <= c.character as u32 <= 127,
            c.color.in_range(),
    {
        let code: u8 = (32 + random_below(96)) as u8;
        let hsv = HSVColor::random_hue();
        Character { color: hsv.to_color(), character: code as char }
    }
}

fn to_byte(c: u32) -> (b: u8)
    ensures
        b == channel_byte(c),
{
    let v: u64 = c as u64 * 256 / FULL as u64;
    if v > 255 {
        255
    } else {
        v as u8
    }
}

fn digit_char(d: u8) -> (c: char)
    requires
        d < 10,
    ensures
        c == digit(d as int),
{
    (48 + d) as char
}

fn push_decimal(out: &mut Vec<char>, n: u8)
    ensures
        final(out)@ == old(out)@ + decimal(n as nat),
{
    proof {
        reveal_with_fuel(decimal, 3);
    }
    if n >= 100 {
        out.push(digit_char(n / 100));
        out.push(digit_char(n / 10 % 10));
        assert((n / 10) as nat / 10 == n / 100);
    } else if n >= 10 {
        out.push(digit_char(n / 10));
    }
    out.push(digit_char(n % 10));
    assert(final(out)@ =~= old(out)@ + decimal(n as nat));
}

/// The only way to build a frame can fail: a zero width or height.
#[derive(Clone, Copy, Debug, PartialEq, Eq, Structural)]
pub enum FrameError {
    InvalidDimensions,
}

/// A `x` by `y` grid of cells, stored row by row: the cell at column `c` and
/// row `r` is `data[r * x + c]`.
#[derive(Clone, Debug)]
pub struct Frame {
    pub x: usize,
    pub y: usize,
    pub data: Vec<Character>,
}

impl Frame {
    /// The grid holds exactly `x * y` cells.
    pub open spec fn wf(&self) -> bool {
        self.data@.len() == self.x * self.y
    }

    /// Index of the cell at column `c` and row `r`.
    pub open spec fn index_of(&self, c: int, r: int) -> int {
        r * self.x + c
    }

    /// Whether `(c, r)` lies inside the grid.
    pub open spec fn contains(&self, c: int, r: int) -> bool {
        0 <= c < self.x && 0 <= r < self.y
    }

    /// The cell at column `c` and row `r`.
    pub open spec fn cell(&self, c: int, r: int) -> Character {
        self.data@[self.index_of(c, r)]
    }

    /// Row `r` as a sequence of cells.
    pub open spec fn row(&self, r: int) -> Seq<Character> {
        self.data@.subrange(r * self.x, (r + 1) * self.x)
    }

    /// The first `k` rows as text, separated (not followed) by newlines.
    pub open spec fn rows_text(&self, k: int) -> Seq<char>
        decreases k,
    {
        if k <= 0 {
            seq![]
        } else if k == 1 {
            cells_text(self.row(0))
        } else {
            self.rows_text(k - 1) + seq!['\n'] + cells_text(self.row(k - 1))
        }
    }

    /// The whole frame as text: cursor home, cursor hidden, then the rows.
    pub open spec fn text(&self) -> Seq<char> {
        frame_header() + self.rows_text(self.y as int)
    }

    /// A frame of `x` by `y` empty cells; a zero dimension is refused.
    pub fn new(x: usize, y: usize) -> (r: Result<Frame, FrameError>)
        requires
            x * y <= usize::MAX,
        ensures
            x == 0 || y == 0 ==> r == Err::<Frame, FrameError>(FrameError::InvalidDimensions),
            x > 0 && y > 0 ==> r is Ok,
            r matches Ok(f) ==> f.x == x && f.y == y && f.wf() && forall|i: int|
                0 <= i < f.data@.len() ==> #[trigger] f.data@[i] == Character::empty_spec(),
    {
        if x == 0 || y == 0 {
            return Err(FrameError::InvalidDimensions);
        }
        let n: usize = x * y;
        let mut data: Vec<Character> = Vec::new();
        let mut i: usize = 0;
        while i < n
            invariant
                i <= n,
                data@.len() == i,
                forall|j: int| 0 <= j < i ==> #[trigger] data@[j] == Character::empty_spec(),
            decreases n - i,
        {
            data.push(Character::empty());
            i += 1;
        }
        Ok(Frame { x, y, data })
    }

    /// The cell at column `x` and row `y`, which must lie inside the grid.
    pub fn get(&self, x: usize, y: usize) -> (c: &Character)
        requires
            self.wf(),
            x < self.x,
            y < self.y,
        ensures
            *c == self.cell(x as int, y as int),
    {
        proof {
            lemma_grid_index(x as int, y as int, self.x as int, self.y as int);
        }
        // the length is a usize, which bounds the index arithmetic
        let _len = self.data.len();
        &self.data[y * self.x + x]
    }

    /// A mutable reference to the cell at column `x` and row `y`, which must
    /// lie inside the grid.
    pub fn get_mut(&mut self, x: usize, y: usize) -> (c: &mut Character)
        requires
            old(self).wf(),
            x < old(self).x,
            y < old(self).y,
        ensures
            *c == old(self).cell(x as int, y as int),
            final(self).wf(),
            final(self).x == old(self).x,
            final(self).y == old(self).y,
            final(self).data@ == old(self).data@.update(
                old(self).index_of(x as int, y as int),
                *final(c),
            ),
    {
        proof {
            lemma_grid_index(x as int, y as int, self.x as int, self.y as int);
        }
        let w = self.x;
        // the length is a usize, which bounds the index arithmetic
        let _len = self.data.len();
        &mut self.data[y * w + x]
    }

    /// Sets the cell at column `x` and row `y`, which must lie inside the grid.
    pub fn set_at(&mut self, x: usize, y: usize, c: Character)
        requires
            old(self).wf(),
            x < old(self).x,
            y < old(self).y,
        ensures
            final(self).x == old(self).x,
            final(self).y == old(self).y,
            final(self).wf(),
            final(self).data@ == old(self).data@.update(old(self).index_of(x as int, y as int), c),
    {
        proof {
            lemma_grid_index(x as int, y as int, self.x as int, self.y as int);
        }
        let w = self.x;
        // the length is a usize, which bounds the index arithmetic
        let _len = self.data.len();
        self.data.set(y * w + x, c);
    }

    /// Sets the cell at column `x` and row `y` if it lies inside the grid;
    /// elsewhere does nothing.
    pub fn set_at_clipping(&mut self, x: isize, y: isize, c: Character)
        requires
            old(self).wf(),
        ensures
            final(self).x == old(self).x,
            final(self).y == old(self).y,
            final(self).wf(),
            final(self).data@ == if old(self).contains(x as int, y as int) {
                old(self).data@.update(old(self).index_of(x as int, y as int), c)
            } else {
                old(self).data@
            },
    {
        if 0 <= x && 0 <= y && (x as usize) < self.x && (y as usize) < self.y {
            self.set_at(x as usize, y as usize, c);
        }
    }

    /// The frame as text, as `text` states it.
    pub fn render(&self) -> (out: Vec<char>)
        requires
            self.wf(),
        ensures
            out@ == self.text(),
    {
        let mut out: Vec<char> = Vec::new();
        out.push('\x1b');
        out.push('[');
        out.push('1');
        out.push(';');
        out.push('1');
        out.push('H');
        out.push('\x1b');
        out.push('[');
        out.push('?');
        out.push('2');
        out.push('5');
        out.push('l');
        assert(out@ =~= frame_header() + self.rows_text(0));
        let mut r: usize = 0;
        while r < self.y
            invariant
                self.wf(),
                r <= self.y,
                out@ == frame_header() + self.rows_text(r as int),
            decreases self.y - r,
        {
            if r > 0 {
                out.push('\n');
            }
            let ghost before = out@;
            let n = self.data.len();
            proof {
                lemma_row_span(r as int, self.x as int, self.y as int);
            }
            let mut c: usize = 0;
            while c < self.x
                invariant
                    self.wf(),
                    n == self.data@.len(),
                    r < self.y,
                    c <= self.x,
                    self.row(r as int).len() == self.x,
                    0 <= r * self.x,
                    (r + 1) * self.x <= self.data@.len(),
                    (r + 1) * self.x == r * self.x + self.x,
                    out@ == before + cells_text(self.row(r as int).take(c as int)),
                decreases self.x - c,
            {
                proof {
                    lemma_grid_index(c as int, r as int, self.x as int, self.y as int);
                }
                let piece = self.data[r * self.x + c].render();
                let ghost prev = out@;
                let mut k: usize = 0;
                while k < piece.len()
                    invariant
                        k <= piece@.len(),
                        out@ == prev + piece@.take(k as int),
                    decreases piece@.len() - k,
                {
                    out.push(piece[k]);
                    k += 1;
                    assert(out@ =~= prev + piece@.take(k as int));
                }
                proof {
                    let row = self.row(r as int);
                    assert(row.take(c + 1).drop_last() =~= row.take(c as int));
                    assert(row.take(c + 1).last() == row[c as int]);
                    assert(row[c as int] == self.data@[r * self.x + c]);
                    assert(piece@.take(k as int) =~= piece@);
                    assert(cells_text(row.take(c + 1)) == cells_text(row.take(c as int))
                        + row[c as int].escaped());
                    assert(out@ =~= before + cells_text(row.take(c + 1)));
                }
                c += 1;
            }
            proof {
                assert(self.row(r as int).take(self.x as int) =~= self.row(r as int));
                reveal_with_fuel(Frame::rows_text, 2);
                assert(out@ =~= frame_header() + self.rows_text(r + 1));
            }
            r += 1;
        }
        out
    }
}

impl Character {
    /// A black space, as a value for contracts.
    pub open spec fn empty_spec() -> Character {
        Character { color: Color { r: 0, g: 0, b: 0 }, character: ' ' }
    }
}

/// Cursor to the top left, then cursor hidden.
pub open spec fn frame_header() -> Seq<char> {
    seq!['\x1b', '[', '1', ';', '1', 'H', '\x1b', '[', '?', '2', '5', 'l']
}

/// The text of a run of cells, one after the other.
pub open spec fn cells_text(cells: Seq<Character>) -> Seq<char>
    decreases cells.len(),
{
    if cells.len() == 0 {
        seq![]
    } else {
        cells_text(cells.drop_last()) + cells.last().escaped()
    }
}

} // verus!

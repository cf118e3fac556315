//! Whole-frame effects: the fade to black, and a bouncing logo.
use vstd::prelude::*;

use crate::color::{Color, FULL};
use crate::frame::{lemma_grid_index, Character, Frame};
use crate::utils::{lemma_index_injective, LIMIT};

verus! {

/// Cells whose luminance falls below this after a fade are blanked.
pub const BLANK_BELOW: u32 = FULL / 10;

/// A cell after a fade by `fade / FULL`: its color scaled, and its glyph
/// replaced by a space when the scaled color is darker than `BLANK_BELOW`.
pub open spec fn faded(c: Character, fade: int) -> Character {
    let color = c.color.scaled(fade);
    Character {
        color,
        character: if color.brightness() < BLANK_BELOW {
            ' '
        } else {
            c.character
        },
    }
}

/// Fades the frame toward blank: `fade == FULL` keeps the colors, `fade == 0`
/// makes every cell a black space.
pub fn fadeout(frame: &mut Frame, fade: u32)
    requires
        old(frame).wf(),
    ensures
        final(frame).x == old(frame).x,
        final(frame).y == old(frame).y,
        final(frame).wf(),
        forall|i: int|
            0 <= i < old(frame).data@.len() ==> #[trigger] final(frame).data@[i] == faded(
                old(frame).data@[i],
                fade as int,
            ),
{
    let ghost start = *frame;
    let n = frame.data.len();
    let mut i: usize = 0;
    while i < n
        invariant
            i <= n,
            n == start.data@.len(),
            frame.x == start.x,
            frame.y == start.y,
            frame.data@.len() == n,
            forall|j: int|
                0 <= j < n ==> #[trigger] frame.data@[j] == if j < i {
                    faded(start.data@[j], fade as int)
                } else {
                    start.data@[j]
                },
        decreases n - i,
    {
        let mut cell = frame.data[i];
        cell.color.scale(fade);
        if cell.color.luminance() < BLANK_BELOW {
            cell.character = ' ';
        }
        frame.data.set(i, cell);
        i += 1;
    }
}

/// A fade by 0 leaves every cell a black space; a fade by `FULL` keeps every
/// cell whose color is in range and not darker than `BLANK_BELOW`.
pub proof fn lemma_fade_ends(c: Character)
    ensures
        faded(c, 0) == Character::empty_spec(),
        c.color.in_range() && c.color.brightness() >= BLANK_BELOW ==> faded(c, FULL as int) == c,
{
    crate::color::lemma_scale_bounds(c.color, 0);
    crate::color::lemma_scale_bounds(c.color, FULL as int);
}

/// Height of the logo in rows.
pub const LOGO_ROWS: usize = 12;

/// The rows of the logo; a space is a transparent cell.
pub open spec fn logo_lines() -> Seq<Seq<char>> {
    seq![
        "     @@@@@@@@@@@@@@@@@@@@       @@@@@@@@@@@@@@@@@@@"@,
        "               @@@@@@@@@@@     @@@@@          @@@@@@"@,
        "    @@@@@       @@@@@ @@@@@  @@@@@  @@@@@       @@@@@"@,
        "    @@@@@      @@@@@@ @@@@@ @@@@@   @@@@@      @@@@@"@,
        "   @@@@@     @@@@@@    @@@@@@@@    @@@@@    @@@@@@@"@,
        "   @@@@@@@@@@@@@        @@@@@      @@@@@@@@@@@@@"@,
        "                         @@@"@,
        "                         @"@,
        "      @@@@@@@@@@@@@@@@@@@@@@@@@@@@@@@@@@@@@@@"@,
        " @@@@@@@@@@@@@@@@@@           @@@@@@@@@@@@@@@@@@@@"@,
        "     @@@@@@@@@@@@@@@@@@@@@@@@@@@@@@@@@@@@@@@@@@"@,
        "                                               @"@,
    ]
}

/// The logo glyph at column `c` and row `r` of the logo, if that cell is drawn.
pub open spec fn logo_at(c: int, r: int) -> Option<char> {
    if 0 <= r < LOGO_ROWS && 0 <= c < logo_lines()[r].len() && logo_lines()[r][c] != ' ' {
        Some(logo_lines()[r][c])
    } else {
        None
    }
}

fn logo_line(i: usize) -> (s: &'static str)
    requires
        i < LOGO_ROWS,
    ensures
        s@ == logo_lines()[i as int],
        s@.len() <= 64,
{
    if i == 0 {
        proof {
            reveal_strlit("     @@@@@@@@@@@@@@@@@@@@       @@@@@@@@@@@@@@@@@@@");
        }
        "     @@@@@@@@@@@@@@@@@@@@       @@@@@@@@@@@@@@@@@@@"
    } else if i == 1 {
        proof {
            reveal_strlit("               @@@@@@@@@@@     @@@@@          @@@@@@");
        }
        "               @@@@@@@@@@@     @@@@@          @@@@@@"
    } else if i == 2 {
        proof {
            reveal_strlit("    @@@@@       @@@@@ @@@@@  @@@@@  @@@@@       @@@@@");
        }
        "    @@@@@       @@@@@ @@@@@  @@@@@  @@@@@       @@@@@"
    } else if i == 3 {
        proof {
            reveal_strlit("    @@@@@      @@@@@@ @@@@@ @@@@@   @@@@@      @@@@@");
        }
        "    @@@@@      @@@@@@ @@@@@ @@@@@   @@@@@      @@@@@"
    } else if i == 4 {
        proof {
            reveal_strlit("   @@@@@     @@@@@@    @@@@@@@@    @@@@@    @@@@@@@");
        }
        "   @@@@@     @@@@@@    @@@@@@@@    @@@@@    @@@@@@@"
    } else if i == 5 {
        proof {
            reveal_strlit("   @@@@@@@@@@@@@        @@@@@      @@@@@@@@@@@@@");
        }
        "   @@@@@@@@@@@@@        @@@@@      @@@@@@@@@@@@@"
    } else if i == 6 {
        proof {
            reveal_strlit("                         @@@");
        }
        "                         @@@"
    } else if i == 7 {
        proof {
            reveal_strlit("                         @");
        }
        "                         @"
    } else if i == 8 {
        proof {
            reveal_strlit("      @@@@@@@@@@@@@@@@@@@@@@@@@@@@@@@@@@@@@@@");
        }
        "      @@@@@@@@@@@@@@@@@@@@@@@@@@@@@@@@@@@@@@@"
    } else if i == 9 {
        proof {
            reveal_strlit(" @@@@@@@@@@@@@@@@@@           @@@@@@@@@@@@@@@@@@@@");
        }
        " @@@@@@@@@@@@@@@@@@           @@@@@@@@@@@@@@@@@@@@"
    } else if i == 10 {
        proof {
            reveal_strlit("     @@@@@@@@@@@@@@@@@@@@@@@@@@@@@@@@@@@@@@@@@@");
        }
        "     @@@@@@@@@@@@@@@@@@@@@@@@@@@@@@@@@@@@@@@@@@"
    } else {
        proof {
            reveal_strlit("                                               @");
        }
        "                                               @"
    }
}

/// The speed after one bounce check along one axis: a positive speed turns
/// back when the far side (`pos + size`) would reach `extent`; any other speed
/// turns back when the position would fall below 0.
pub open spec fn bounced(pos: int, speed: int, size: int, extent: int) -> int {
    if speed > 0 {
        if pos + size + speed >= extent {
            -speed
        } else {
            speed
        }
    } else {
        if pos + speed < 0 {
            -speed
        } else {
            speed
        }
    }
}

/// A logo that moves across the frame and bounces off its sides.
pub struct DVDLogo {
    x: isize,
    y: isize,
    x_speed: isize,
    y_speed: isize,
}

impl DVDLogo {
    /// Width of the logo, in cells, as the bounce checks count it.
    pub const WIDTH: isize = 54;

    /// Height of the logo, in cells.
    pub const HEIGHT: isize = 12;

    pub closed spec fn pos(&self) -> (int, int) {
        (self.x as int, self.y as int)
    }

    pub closed spec fn speed(&self) -> (int, int) {
        (self.x_speed as int, self.y_speed as int)
    }

    /// The position and speed fit the arithmetic of one step.
    pub open spec fn can_step(&self) -> bool {
        &&& -LIMIT <= self.pos().0 <= LIMIT
        &&& -LIMIT <= self.pos().1 <= LIMIT
        &&& -LIMIT <= self.speed().0 <= LIMIT
        &&& -LIMIT <= self.speed().1 <= LIMIT
    }

    /// Turns the speed back at the frame's sides, then moves by it.
    pub fn step(&mut self, frame: &Frame)
        requires
            old(self).can_step(),
            frame.x <= LIMIT,
            frame.y <= LIMIT,
        ensures
            final(self).speed() == (
                bounced(old(self).pos().0, old(self).speed().0, Self::WIDTH as int, frame.x as int),
                bounced(old(self).pos().1, old(self).speed().1, Self::HEIGHT as int, frame.y as int),
            ),
            final(self).pos() == (
                old(self).pos().0 + final(self).speed().0,
                old(self).pos().1 + final(self).speed().1,
            ),
    {
        // x movement
        if self.x_speed > 0 {
            if self.x + DVDLogo::WIDTH + self.x_speed >= frame.x as isize {
                self.x_speed = -self.x_speed;
            }
        } else {
            if self.x + self.x_speed < 0 {
                self.x_speed = -self.x_speed;
            }
        }
        // y movement

        if self.y_speed > 0 {
            if self.y + DVDLogo::HEIGHT + self.y_speed >= frame.y as isize {
                self.y_speed = -self.y_speed;
            }
        } else {
            if self.y + self.y_speed < 0 {
                self.y_speed = -self.y_speed;
            }
        }
        self.x += self.x_speed;
        self.y += self.y_speed;
    }

    /// Draws the logo in white with its top left corner at the logo's
    /// position; spaces of the logo leave the frame as it is.
    pub fn draw(&mut self, frame: &mut Frame)
        requires
            old(frame).wf(),
            old(self).can_step(),
        ensures
            *final(self) == *old(self),
            final(frame).x == old(frame).x,
            final(frame).y == old(frame).y,
            final(frame).wf(),
            forall|cx: int, cy: int|
                old(frame).contains(cx, cy) ==> #[trigger] final(frame).cell(cx, cy) == match logo_at(
                    cx - old(self).pos().0,
                    cy - old(self).pos().1,
                ) {
                    Some(g) => Character { color: Color { r: FULL, g: FULL, b: FULL }, character: g },
                    None => old(frame).cell(cx, cy),
                },
    {
        let ghost start = *frame;
        let ghost (ox, oy) = self.pos();
        let mut row: usize = 0;
        while row < LOGO_ROWS
            invariant
                row <= LOGO_ROWS,
                self.can_step(),
                ox == self.x,
                oy == self.y,
                frame.wf(),
                frame.x == start.x,
                frame.y == start.y,
                forall|cx: int, cy: int|
                    start.contains(cx, cy) ==> #[trigger] frame.cell(cx, cy) == if cy - oy < row {
                        match logo_at(cx - ox, cy - oy) {
                            Some(g) => Character {
                                color: Color { r: FULL, g: FULL, b: FULL },
                                character: g,
                            },
                            None => start.cell(cx, cy),
                        }
                    } else {
                        start.cell(cx, cy)
                    },
            decreases LOGO_ROWS - row,
        {
            let line = logo_line(row);
            let len = line.unicode_len();
            let mut col: usize = 0;
            while col < len
                invariant
                    row < LOGO_ROWS,
                    col <= len,
                    len == line@.len(),
                    len <= 64,
                    line@ == logo_lines()[row as int],
                    self.can_step(),
                    ox == self.x,
                    oy == self.y,
                    frame.wf(),
                    frame.x == start.x,
                    frame.y == start.y,
                    forall|cx: int, cy: int|
                        start.contains(cx, cy) ==> #[trigger] frame.cell(cx, cy) == if cy - oy < row
                            || (cy - oy == row && cx - ox < col) {
                            match logo_at(cx - ox, cy - oy) {
                                Some(g) => Character {
                                    color: Color { r: FULL, g: FULL, b: FULL },
                                    character: g,
                                },
                                None => start.cell(cx, cy),
                            }
                        } else {
                            start.cell(cx, cy)
                        },
                decreases len - col,
            {
                let g = line.get_char(col);
                if g != ' ' {
                    let cx = self.x + col as isize;
                    let cy = self.y + row as isize;
                    let ghost before = *frame;
                    assert(logo_at(col as int, row as int) == Some(g));
                    frame.set_at_clipping(
                        cx,
                        cy,
                        Character { color: Color::white(), character: g },
                    );
                    proof {
                        assert forall|px: int, py: int| start.contains(px, py) implies #[trigger] frame.cell(
                            px,
                            py,
                        ) == if py - oy < row || (py - oy == row && px - ox < col + 1) {
                            match logo_at(px - ox, py - oy) {
                                Some(g) => Character {
                                    color: Color { r: FULL, g: FULL, b: FULL },
                                    character: g,
                                },
                                None => start.cell(px, py),
                            }
                        } else {
                            start.cell(px, py)
                        } by {
                            lemma_grid_index(px, py, start.x as int, start.y as int);
                            assert(before.cell(px, py) == if py - oy < row || (py - oy == row && px
                                - ox < col) {
                                match logo_at(px - ox, py - oy) {
                                    Some(g) => Character {
                                        color: Color { r: FULL, g: FULL, b: FULL },
                                        character: g,
                                    },
                                    None => start.cell(px, py),
                                }
                            } else {
                                start.cell(px, py)
                            });
                            if before.contains(cx as int, cy as int) {
                                lemma_grid_index(cx as int, cy as int, start.x as int, start.y as int);
                                if before.index_of(px, py) == before.index_of(cx as int, cy as int) {
                                    lemma_index_injective(px, py, cx as int, cy as int, start.x as int);
                                }
                            }
                        }
                    }
                } else {
                    proof {
                        assert forall|px: int, py: int| start.contains(px, py) implies #[trigger] frame.cell(
                            px,
                            py,
                        ) == if py - oy < row || (py - oy == row && px - ox < col + 1) {
                            match logo_at(px - ox, py - oy) {
                                Some(g) => Character {
                                    color: Color { r: FULL, g: FULL, b: FULL },
                                    character: g,
                                },
                                None => start.cell(px, py),
                            }
                        } else {
                            start.cell(px, py)
                        } by {
                            assert(frame.cell(px, py) == frame.cell(px, py));
                        }
                    }
                }
                col += 1;
            }
            proof {
                assert forall|px: int, py: int| start.contains(px, py) implies #[trigger] frame.cell(
                    px,
                    py,
                ) == if py - oy < row + 1 {
                    match logo_at(px - ox, py - oy) {
                        Some(g) => Character {
                            color: Color { r: FULL, g: FULL, b: FULL },
                            character: g,
                        },
                        None => start.cell(px, py),
                    }
                } else {
                    start.cell(px, py)
                } by {
                    assert(frame.cell(px, py) == frame.cell(px, py));
                }
            }
            row += 1;
        }
    }
}

impl Default for DVDLogo {
    fn default() -> (l: DVDLogo)
        ensures
            l.pos() == (0int, 0int),
            l.speed() == (2int, 1int),
    {
        DVDLogo { x: 0, y: 0, x_speed: 2, y_speed: 1 }
    }
}

} // verus!

//! White text laid over the frame from its top left corner.
use vstd::prelude::*;

use crate::animations::Animation;
use crate::color::{Color, FULL};
use crate::frame::{lemma_grid_index, Character, Frame};

verus! {

/// The overlay after its first `k` characters, on cells `cells` of a `w` by
/// `h` frame: the cells, the line and column of the cursor, and whether the
/// frame was full. A newline moves to the start of the next line; a glyph
/// that would pass the right edge first wraps to the next line; once the
/// cursor line reaches `h` (or at once, for a frame of width 0) the rest of
/// the text is dropped.
pub open spec fn overlay_upto(
    cells: Seq<Character>,
    text: Seq<char>,
    w: int,
    h: int,
    k: int,
) -> (Seq<Character>, int, int, bool)
    decreases k,
{
    if k <= 0 {
        (cells, 0, 0, false)
    } else {
        let prev = overlay_upto(cells, text, w, h, k - 1);
        let ch = text[k - 1];
        if prev.3 {
            prev
        } else if ch == '\n' {
            (prev.0, prev.1 + 1, 0, false)
        } else {
            let l = if prev.2 >= w {
                prev.1 + 1
            } else {
                prev.1
            };
            let c = if prev.2 >= w {
                0
            } else {
                prev.2
            };
            if l >= h || w <= 0 {
                (prev.0, l, c, true)
            } else {
                (
                    prev.0.update(
                        l * w + c,
                        Character { character: ch, color: Color { r: FULL, g: FULL, b: FULL } },
                    ),
                    l,
                    c + 1,
                    false,
                )
            }
        }
    }
}

/// A text drawn in white over the frame.
pub struct TextOverlay {
    pub text: String,
}

impl TextOverlay {
    const NAME: &'static str = "TextOverlay";
    const AUTHOR: &'static str = "Jo";

    /// Lays the text over the frame, as `overlay_upto` states it.
    pub fn overlay(&self, frame: &mut Frame)
        requires
            old(frame).wf(),
        ensures
            final(frame).x == old(frame).x,
            final(frame).y == old(frame).y,
            final(frame).wf(),
            final(frame).data@ == overlay_upto(
                old(frame).data@,
                self.text@,
                old(frame).x as int,
                old(frame).y as int,
                self.text@.len() as int,
            ).0,
    {
        let text = self.text.as_str();
        let n = text.unicode_len();
        let ghost (w, h) = (frame.x as int, frame.y as int);
        let ghost cells = frame.data@;
        let mut line: usize = 0;
        let mut char_in_line: usize = 0;
        let mut k: usize = 0;
        while k < n
            invariant
                k <= n,
                n == text@.len(),
                text@ == self.text@,
                w == frame.x,
                h == frame.y,
                frame.wf(),
                frame.x == old(frame).x,
                frame.y == old(frame).y,
                cells == old(frame).data@,
                char_in_line <= w,
                line <= k,
                ({
                    let st = overlay_upto(cells, text@, w, h, k as int);
                    &&& st.0 == frame.data@
                    &&& st.1 == line
                    &&& st.2 == char_in_line
                    &&& !st.3
                }),
            decreases n - k,
        {
            let character = text.get_char(k);
            // handling of new lines
            if character == '\n' {
                line += 1;
                char_in_line = 0;
                k += 1;
                continue;
            }
            // handling of text wrapping

            if char_in_line >= frame.x {
                line += 1;
                char_in_line = 0;
            }
            // return if the screen is full

            if line >= frame.y || frame.x == 0 {
                proof {
                    lemma_overlay_stays(cells, text@, w, h, k as int + 1, n as int);
                }
                return;
            }
            // actually place the character

            proof {
                lemma_grid_index(char_in_line as int, line as int, w, h);
            }
            // the length is a usize, which bounds the index arithmetic
            let _len = frame.data.len();
            frame.data.set(
                line * frame.x + char_in_line,
                Character { character, color: Color::white() },
            );
            char_in_line += 1;
            k += 1;
        }
    }
}

/// Once the frame is full, later characters change nothing.
proof fn lemma_overlay_stays(cells: Seq<Character>, text: Seq<char>, w: int, h: int, k: int, n: int)
    requires
        0 < k <= n,
        overlay_upto(cells, text, w, h, k).3,
    ensures
        overlay_upto(cells, text, w, h, n) == overlay_upto(cells, text, w, h, k),
    decreases n - k,
{
    if k < n {
        lemma_overlay_stays(cells, text, w, h, k + 1, n);
    }
}

impl Animation for TextOverlay {
    fn name(&self) -> &'static str {
        TextOverlay::NAME
    }

    fn author(&self) -> &'static str {
        TextOverlay::AUTHOR
    }

    fn render(&mut self, frame: &mut Frame)
        ensures
            final(self).text@ == old(self).text@,
            final(frame).data@ == overlay_upto(
                old(frame).data@,
                old(self).text@,
                old(frame).x as int,
                old(frame).y as int,
                old(self).text@.len() as int,
            ).0,
    {
        self.overlay(frame);
    }
}

} // verus!

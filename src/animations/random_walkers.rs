//! Colored glyphs that wander one cell at a time in random directions.
use vstd::prelude::*;

use crate::animations::Animation;
use crate::frame::{Character, Frame};
use crate::random::random_below;

verus! {

/// The position after one step in `direction` (0: x + 1, 1: x - 1, 2: y + 1,
/// else y - 1, each wrapping around the machine word) taken modulo the frame
/// size `w` by `h`.
pub open spec fn walked(x: usize, y: usize, direction: u32, w: usize, h: usize) -> (usize, usize) {
    let (nx, ny) = if direction == 0 {
        (x.wrapping_add(1), y)
    } else if direction == 1 {
        (x.wrapping_sub(1), y)
    } else if direction == 2 {
        (x, y.wrapping_add(1))
    } else {
        (x, y.wrapping_sub(1))
    };
    ((nx % w) as usize, (ny % h) as usize)
}

#[derive(Clone, Copy, Debug)]
struct RandomWalker {
    x: usize,
    y: usize,
    character: Character,
}

impl RandomWalker {
    fn random() -> (w: RandomWalker)
        ensures
            w.x < 1024,
            w.y < 1024,
    {
        RandomWalker {
            x: random_below(1024) as usize,
            y: random_below(1024) as usize,
            character: Character::random(),
        }
    }

    /// One step in the given direction, kept inside a `w` by `h` frame.
    fn step_to(&mut self, direction: u32, w: usize, h: usize)
        requires
            w > 0,
            h > 0,
        ensures
            (final(self).x, final(self).y) == walked(old(self).x, old(self).y, direction, w, h),
            final(self).x < w,
            final(self).y < h,
            final(self).character == old(self).character,
    {
        if direction == 0 {
            self.x = self.x.wrapping_add(1);
        } else if direction == 1 {
            self.x = self.x.wrapping_sub(1);
        } else if direction == 2 {
            self.y = self.y.wrapping_add(1);
        } else {
            self.y = self.y.wrapping_sub(1);
        }
        self.x = self.x % w;
        self.y = self.y % h;
    }

    /// One step in a random direction, kept inside the frame.
    fn walk(&mut self, frame: &Frame)
        requires
            frame.x > 0,
            frame.y > 0,
        ensures
            exists|d: u32|
                d < 4 && (final(self).x, final(self).y) == #[trigger] walked(
                    old(self).x,
                    old(self).y,
                    d,
                    frame.x,
                    frame.y,
                ),
            final(self).x < frame.x,
            final(self).y < frame.y,
            final(self).character == old(self).character,
    {
        let direction = random_below(4);
        self.step_to(direction, frame.x, frame.y);
    }
}

/// Ten walkers, each leaving its glyph where it steps.
pub struct RandomWalkers {
    walkers: Vec<RandomWalker>,
}

impl RandomWalkers {
    const NAME: &'static str = "RandomWalkers";
    const AUTHOR: &'static str = "Jo";

    /// How many walkers there are.
    pub closed spec fn count(&self) -> int {
        self.walkers@.len() as int
    }
}

impl Default for RandomWalkers {
    fn default() -> (r: RandomWalkers)
        ensures
            r.count() == 10,
    {
        let mut walkers = RandomWalkers { walkers: Vec::new() };
        let mut i: usize = 0;
        while i < 10
            invariant
                i <= 10,
                walkers.walkers@.len() == i,
            decreases 10 - i,
        {
            walkers.walkers.push(RandomWalker::random());
            i += 1;
        }
        walkers
    }
}

impl Animation for RandomWalkers {
    fn name(&self) -> &'static str {
        RandomWalkers::NAME
    }

    fn author(&self) -> &'static str {
        RandomWalkers::AUTHOR
    }

    /// Moves every walker one step and leaves its glyph in the frame.
    fn render(&mut self, frame: &mut Frame) {
        if frame.x == 0 || frame.y == 0 {
            return;
        }
        let n = self.walkers.len();
        let mut i: usize = 0;
        while i < n
            invariant
                i <= n,
                n == self.walkers@.len(),
                frame.wf(),
                frame.x == old(frame).x,
                frame.y == old(frame).y,
                frame.x > 0,
                frame.y > 0,
            decreases n - i,
        {
            let mut walker = self.walkers[i].clone();
            walker.walk(frame);
            *frame.get_mut(walker.x, walker.y) = walker.character;
            self.walkers.set(i, walker);
            i += 1;
        }
    }
}

} // verus!

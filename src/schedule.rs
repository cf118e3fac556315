//! The playlist scheduler: decides, tick by tick, which generator runs, when
//! a new one starts, how far a run has faded, and how long to sleep.
//!
//! The caller runs the loop: it reads the clock and the stop flag, asks
//! `tick` what to do, creates and renders generators, writes the frame and
//! sleeps for `sleep_time`.
use vstd::prelude::*;

use crate::color::FULL;

verus! {

/// Timing of a playlist, in microseconds.
#[derive(Clone, Copy, Debug, PartialEq, Eq, Structural)]
pub struct Timing {
    /// How long each generator runs.
    pub run_duration: u64,
    /// How long before the end of a run the fade to black starts.
    pub fade_duration: u64,
    /// The target length of one tick.
    pub frame_budget: u64,
}

/// The part of a run a tick falls in.
#[derive(Clone, Copy, Debug, PartialEq, Eq, Structural)]
pub enum Phase {
    /// The first tick of a run: a new generator is created.
    Starting,
    /// A tick before the fade.
    Running,
    /// A tick within the fade duration of the run's end.
    FadingOut,
}

/// What the caller does in one tick.
#[derive(Clone, Copy, Debug, PartialEq, Eq, Structural)]
pub enum Action {
    /// Leave the loop (and show the cursor again).
    Stop,
    /// Render the generator of playlist entry `index` (a new instance of it
    /// when `phase` is `Starting`), then fade the frame by `fade / FULL`
    /// when there is a fade.
    Render { index: usize, phase: Phase, fade: Option<u32> },
}

/// The time left in a run that started at `start`, at time `now`.
pub open spec fn remaining(start: int, now: int, run: int) -> int {
    let elapsed = if now >= start {
        now - start
    } else {
        0
    };
    if elapsed < run {
        run - elapsed
    } else {
        0
    }
}

/// The fade factor for `left` microseconds left of a fade of `fade`: `None`
/// before the fade, else `left * FULL / fade`.
pub open spec fn fade_factor(left: int, fade: int) -> Option<u32> {
    if left < fade {
        Some((left * FULL / fade) as u32)
    } else {
        None
    }
}

/// The sleep that fills the rest of the budget after `elapsed`, or none when
/// the tick overran it.
pub open spec fn sleep_spec(budget: int, elapsed: int) -> int {
    if elapsed < budget {
        budget - elapsed
    } else {
        0
    }
}

/// Whether a tick at `now` starts a run, for a scheduler in state `(started,
/// index, run_start)`: the first tick does, and so does any tick at which
/// the current run has lasted `run`.
pub open spec fn starts_run(state: (bool, int, int), now: int, run: int) -> bool {
    !state.0 || remaining(state.2, now, run) == 0
}

/// The state `(started, index, run_start)` after a tick at `now` (with no
/// stop request) on a playlist of `len` entries: the first run is entry 0,
/// each later run the entry after the last (wrapping to 0), and a new run
/// starts at `now`.
pub open spec fn after_tick(state: (bool, int, int), now: int, run: int, len: int) -> (
    bool,
    int,
    int,
) {
    let begins = starts_run(state, now, run);
    (
        true,
        if !state.0 {
            0
        } else if begins {
            (state.1 + 1) % len
        } else {
            state.1
        },
        if begins {
            now
        } else {
            state.2
        },
    )
}

/// On a playlist of two entries with runs of length `d`, ticks `d` apart
/// from a fresh scheduler start runs of entry 0, 1, 0, 1 in turn: each
/// generator runs once per cycle, in playlist order, and the playlist wraps.
pub proof fn lemma_two_entries_alternate(run_start: int, t: int, d: int)
    requires
        d > 0,
    ensures
        ({
            let s0 = (false, 0int, run_start);
            let s1 = after_tick(s0, t, d, 2);
            let s2 = after_tick(s1, t + d, d, 2);
            let s3 = after_tick(s2, t + 2 * d, d, 2);
            let s4 = after_tick(s3, t + 3 * d, d, 2);
            &&& starts_run(s0, t, d) && s1.1 == 0
            &&& starts_run(s1, t + d, d) && s2.1 == 1
            &&& starts_run(s2, t + 2 * d, d) && s3.1 == 0
            &&& starts_run(s3, t + 3 * d, d) && s4.1 == 1
        }),
{
    assert((0int + 1) % 2 == 1);
    assert((1int + 1) % 2 == 0);
}

/// The playlist position and the start of the current run.
pub struct Scheduler {
    timing: Timing,
    playlist_len: usize,
    index: usize,
    run_start: u64,
    started: bool,
}

impl Scheduler {
    pub closed spec fn timing(&self) -> Timing {
        self.timing
    }

    pub closed spec fn playlist_len(&self) -> int {
        self.playlist_len as int
    }

    /// The playlist entry of the current run.
    pub closed spec fn index(&self) -> int {
        self.index as int
    }

    /// When the current run started.
    pub closed spec fn run_start(&self) -> int {
        self.run_start as int
    }

    /// Whether a run has started.
    pub closed spec fn started(&self) -> bool {
        self.started
    }

    pub open spec fn wf(&self) -> bool {
        0 <= self.index() < self.playlist_len()
    }

    /// A scheduler for a playlist of `playlist_len` entries; nothing has run yet.
    pub fn new(timing: Timing, playlist_len: usize) -> (s: Scheduler)
        requires
            playlist_len > 0,
        ensures
            s.wf(),
            s.timing() == timing,
            s.playlist_len() == playlist_len,
            s.index() == 0,
            !s.started(),
    {
        Scheduler { timing, playlist_len, index: 0, run_start: 0, started: false }
    }

    /// The time left at `now` in the current run (0 before the first run).
    pub fn time_left(&self, now: u64) -> (r: u64)
        ensures
            self.started() ==> r == remaining(self.run_start(), now as int, self.timing().run_duration as int),
            !self.started() ==> r == 0,
    {
        if self.started {
            remaining_time(self.run_start, now, self.timing.run_duration)
        } else {
            0
        }
    }

    /// Decides the tick at time `now`. A stop request ends the loop. The first
    /// tick starts entry 0; a tick at which the current run has lasted its
    /// full duration starts the next entry (after the last, the first again).
    /// Either way the run then starts at `now`. The fade factor follows from
    /// the time left in the run.
    pub fn tick(&mut self, now: u64, stop_requested: bool) -> (a: Action)
        requires
            old(self).wf(),
        ensures
            final(self).wf(),
            final(self).timing() == old(self).timing(),
            final(self).playlist_len() == old(self).playlist_len(),
            stop_requested ==> a == Action::Stop && *final(self) == *old(self),
            !stop_requested ==> ({
                let t = old(self).timing();
                let before = (old(self).started(), old(self).index(), old(self).run_start());
                let begins = starts_run(before, now as int, t.run_duration as int);
                &&& (final(self).started(), final(self).index(), final(self).run_start())
                    == after_tick(before, now as int, t.run_duration as int, old(self).playlist_len())
                &&& a == Action::Render {
                    index: final(self).index() as usize,
                    phase: if begins {
                        Phase::Starting
                    } else if fade_factor(
                        remaining(final(self).run_start(), now as int, t.run_duration as int),
                        t.fade_duration as int,
                    ) is Some {
                        Phase::FadingOut
                    } else {
                        Phase::Running
                    },
                    fade: fade_factor(
                        remaining(final(self).run_start(), now as int, t.run_duration as int),
                        t.fade_duration as int,
                    ),
                }
            }),
    {
        if stop_requested {
            return Action::Stop;
        }
        let begins = !self.started || remaining_time(self.run_start, now, self.timing.run_duration)
            == 0;
        if !self.started {
            self.index = 0;
        } else if begins {
            self.index = if self.index + 1 >= self.playlist_len {
                0
            } else {
                self.index + 1
            };
            proof {
                if self.index == 0 {
                    vstd::arithmetic::div_mod::lemma_fundamental_div_mod_converse(
                        old(self).index + 1,
                        self.playlist_len as int,
                        1,
                        0,
                    );
                } else {
                    vstd::arithmetic::div_mod::lemma_fundamental_div_mod_converse(
                        old(self).index + 1,
                        self.playlist_len as int,
                        0,
                        old(self).index + 1,
                    );
                }
            }
        }
        if begins {
            self.run_start = now;
        }
        self.started = true;
        let left = remaining_time(self.run_start, now, self.timing.run_duration);
        let fade = fade_value(left, self.timing.fade_duration);
        let phase = if begins {
            Phase::Starting
        } else if fade.is_some() {
            Phase::FadingOut
        } else {
            Phase::Running
        };
        Action::Render { index: self.index, phase, fade }
    }
}

fn remaining_time(start: u64, now: u64, run: u64) -> (r: u64)
    ensures
        r == remaining(start as int, now as int, run as int),
{
    let elapsed = if now >= start {
        now - start
    } else {
        0
    };
    if elapsed < run {
        run - elapsed
    } else {
        0
    }
}

fn fade_value(left: u64, fade: u64) -> (r: Option<u32>)
    ensures
        r == fade_factor(left as int, fade as int),
        r matches Some(f) ==> f < FULL,
{
    if left < fade {
        proof {
            assert(left * FULL < fade * FULL) by (nonlinear_arith)
                requires
                    left < fade,
            ;
            vstd::arithmetic::div_mod::lemma_div_is_ordered(left * FULL, fade * FULL - 1, fade as int);
            vstd::arithmetic::div_mod::lemma_div_multiples_vanish(FULL as int, fade as int);
            assert(fade * FULL == fade * FULL) by (nonlinear_arith);
            assert(((fade * FULL - 1) / (fade as int)) < FULL) by {
                vstd::arithmetic::div_mod::lemma_fundamental_div_mod_converse(
                    fade * FULL - 1,
                    fade as int,
                    FULL - 1,
                    fade - 1,
                );
                assert((FULL - 1) * fade + fade - 1 == fade * FULL - 1) by (nonlinear_arith);
            }
        }
        Some((left as u128 * FULL as u128 / fade as u128) as u32)
    } else {
        None
    }
}

/// How long to sleep after a tick that took `elapsed` of a `budget`: the rest
/// of the budget, or nothing when the tick overran it.
pub fn sleep_time(budget: u64, elapsed: u64) -> (s: u64)
    ensures
        s == sleep_spec(budget as int, elapsed as int),
{
    if elapsed < budget {
        budget - elapsed
    } else {
        0
    }
}

} // verus!

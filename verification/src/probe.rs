//! The transports: the probe's scrubber over its recorded frames, and the
//! scene screen's looping rollout playback.
//!
//! The probe records a rollout and lets the operator play it, step through it
//! and seek in it. The simulation and the frames are floating point and live
//! with the application; the scrubber is this, and it never leaves the
//! recording: with `len` frames the cursor stays below `len`.

use vstd::prelude::*;

verus! {

/// A scrubber over a recording.
#[derive(Clone, Copy, Debug, PartialEq, Eq)]
pub struct Playhead {
    /// The frame shown.
    pub cursor: usize,
    pub playing: bool,
}

/// The cursor is on a frame, whenever there are frames.
pub open spec fn in_range(cursor: int, len: int) -> bool {
    len > 0 ==> 0 <= cursor < len
}

/// `x` clamped into `[lo, hi]`.
pub open spec fn clamp(x: int, lo: int, hi: int) -> int {
    if x < lo {
        lo
    } else if x > hi {
        hi
    } else {
        x
    }
}

impl Playhead {
    /// At the first frame, playing.
    pub fn new() -> (p: Self)
        ensures
            p.cursor == 0,
            p.playing,
    {
        Playhead { cursor: 0, playing: true }
    }

    /// A fresh episode: back to the first frame.
    pub fn restart(&mut self)
        ensures
            final(self).cursor == 0,
            final(self).playing == old(self).playing,
    {
        self.cursor = 0;
    }

    /// One frame of playback: advance while there is a next frame, stop at
    /// the last one.
    pub fn tick(&mut self, len: usize)
        ensures
            !old(self).playing || len == 0 ==> *final(self) == *old(self),
            old(self).playing && len > 0 && old(self).cursor + 1 < len ==> final(self).cursor
                == old(self).cursor + 1 && final(self).playing,
            old(self).playing && len > 0 && old(self).cursor + 1 >= len ==> final(self).cursor
                == old(self).cursor && !final(self).playing,
            in_range(old(self).cursor as int, len as int) ==> in_range(
                final(self).cursor as int,
                len as int,
            ),
    {
        if !self.playing || len == 0 {
            return;
        }
        if self.cursor < len && self.cursor + 1 < len {
            self.cursor = self.cursor + 1;
        } else {
            self.playing = false;
        }
    }

    /// Play or pause. Pressing play at the end replays from the start
    /// rather than doing nothing.
    pub fn toggle_play(&mut self, len: usize)
        ensures
            len == 0 ==> *final(self) == *old(self),
            len > 0 ==> final(self).playing == !old(self).playing,
            len > 0 && !old(self).playing && old(self).cursor + 1 >= len ==> final(self).cursor
                == 0,
            len > 0 && !(!old(self).playing && old(self).cursor + 1 >= len) ==> final(self).cursor
                == old(self).cursor,
            in_range(old(self).cursor as int, len as int) ==> in_range(
                final(self).cursor as int,
                len as int,
            ),
    {
        if len == 0 {
            return;
        }
        if !self.playing && (self.cursor >= len || self.cursor + 1 >= len) {
            self.cursor = 0;
        }
        self.playing = !self.playing;
    }

    /// Step `d` frames (back when negative), pausing; bounded at both ends.
    pub fn step_by(&mut self, len: usize, d: i32)
        ensures
            !final(self).playing,
            len == 0 ==> final(self).cursor == old(self).cursor,
            len > 0 ==> final(self).cursor == clamp(old(self).cursor + d, 0, len - 1),
            in_range(final(self).cursor as int, len as int),
    {
        self.playing = false;
        if len == 0 {
            return;
        }
        let last = len - 1;
        if d < 0 {
            let back = (-(d as i64)) as u64;
            if (self.cursor as u64) < back {
                self.cursor = 0;
            } else {
                let c = ((self.cursor as u64) - back) as usize;
                self.cursor = if c > last { last } else { c };
            }
        } else {
            let fwd = d as usize;
            if self.cursor >= last || fwd >= last - self.cursor {
                self.cursor = last;
            } else {
                self.cursor = self.cursor + fwd;
            }
        }
    }

    /// Jump to frame `index`, pausing; past the end means the last frame.
    pub fn seek(&mut self, len: usize, index: usize)
        ensures
            len == 0 ==> *final(self) == *old(self),
            len > 0 ==> !final(self).playing && final(self).cursor == if index < len {
                index
            } else {
                (len - 1) as usize
            },
            in_range(old(self).cursor as int, len as int) ==> in_range(
                final(self).cursor as int,
                len as int,
            ),
    {
        if len == 0 {
            return;
        }
        self.playing = false;
        self.cursor = if index < len { index } else { len - 1 };
    }

    /// A push at the cursor: everything after it described a future that no
    /// longer happens, so only the frames up to and including the cursor are
    /// kept (the count is returned, at most `len`; the pushed frame is the
    /// last of them) and playback resumes. Nothing happens without frames.
    pub fn push(&mut self, len: usize) -> (keep: Option<usize>)
        ensures
            len == 0 ==> keep is None && *final(self) == *old(self),
            len > 0 ==> keep == Some(
                if old(self).cursor < len {
                    (old(self).cursor + 1) as usize
                } else {
                    len
                },
            ) && final(self).cursor == old(self).cursor && final(self).playing,
    {
        if len == 0 {
            return None;
        }
        self.playing = true;
        Some(if self.cursor < len { self.cursor + 1 } else { len })
    }
}

// --------------------------------------------------------------- playback --

/// The scene screen's rollout playback. It loops: the frame counter runs on
/// and the frame shown is the counter modulo the rollout's length.
#[derive(Clone, Copy, Debug, PartialEq, Eq)]
pub struct Playback {
    pub frame: usize,
    pub playing: bool,
}

/// `a + b` wrapping at the width of `usize`.
pub open spec fn wrap_add(a: usize, b: usize) -> usize {
    ((a + b) % (usize::MAX as int + 1)) as usize
}

fn wrapping_add(a: usize, b: usize) -> (r: usize)
    ensures
        r == wrap_add(a, b),
{
    if b > usize::MAX - a {
        b - (usize::MAX - a) - 1
    } else {
        a + b
    }
}

impl Playback {
    /// At the first frame, playing.
    pub fn new() -> (p: Self)
        ensures
            p.frame == 0,
            p.playing,
    {
        Playback { frame: 0, playing: true }
    }

    /// `steps` frames of the clock: the counter moves on while playing.
    pub fn advance(&mut self, steps: usize)
        ensures
            old(self).playing ==> final(self).frame == wrap_add(old(self).frame, steps),
            !old(self).playing ==> final(self).frame == old(self).frame,
            final(self).playing == old(self).playing,
    {
        if self.playing {
            self.frame = wrapping_add(self.frame, steps);
        }
    }

    /// The frame to show of a rollout `total` frames long, if it has any.
    pub fn shown(&self, total: usize) -> (f: Option<usize>)
        ensures
            total == 0 ==> f is None,
            total > 0 ==> f == Some((self.frame % total) as usize),
    {
        if total == 0 {
            None
        } else {
            Some(self.frame % total)
        }
    }

    pub fn toggle(&mut self)
        ensures
            final(self).frame == old(self).frame,
            final(self).playing == !old(self).playing,
    {
        self.playing = !self.playing;
    }

    /// One frame back, pausing; it stops at the first.
    pub fn step_back(&mut self)
        ensures
            !final(self).playing,
            final(self).frame == if old(self).frame > 0 {
                (old(self).frame - 1) as usize
            } else {
                0
            },
    {
        self.playing = false;
        if self.frame > 0 {
            self.frame = self.frame - 1;
        }
    }

    /// One frame on, pausing.
    pub fn step_forward(&mut self)
        ensures
            !final(self).playing,
            final(self).frame == wrap_add(old(self).frame, 1),
    {
        self.playing = false;
        self.frame = wrapping_add(self.frame, 1);
    }

    /// From the top, playing.
    pub fn restart(&mut self)
        ensures
            final(self).frame == 0,
            final(self).playing,
    {
        self.frame = 0;
        self.playing = true;
    }

    /// A new rollout replaces the old: back to its first frame.
    pub fn rewind(&mut self)
        ensures
            final(self).frame == 0,
            final(self).playing == old(self).playing,
    {
        self.frame = 0;
    }

    /// Jump to frame `index` of a rollout `len` frames long, pausing; past
    /// the end means the last frame.
    pub fn seek(&mut self, index: usize, len: usize)
        ensures
            !final(self).playing,
            final(self).frame == if len == 0 {
                0
            } else if index < len {
                index
            } else {
                (len - 1) as usize
            },
    {
        self.playing = false;
        let total = if len == 0 {
            1
        } else {
            len
        };
        self.frame = if index < total {
            index
        } else {
            total - 1
        };
    }
}

} // verus!

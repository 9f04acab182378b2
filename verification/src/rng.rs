//! Sources of random draws for maze generation.
//!
//! A source is modeled by the finite sequence of values it has been recorded
//! to return; once the recording is exhausted every further draw is zero.
//! That makes generation a mathematical function of the recorded sequence,
//! which is what lets determinism be stated and proved.

use vstd::prelude::*;

verus! {

/// The first draw a source with recorded sequence `s` returns.
pub open spec fn draw_head(s: Seq<u32>) -> u32 {
    if s.len() > 0 {
        s[0]
    } else {
        0u32
    }
}

/// What remains of the recorded sequence `s` after one draw.
pub open spec fn draw_tail(s: Seq<u32>) -> Seq<u32> {
    if s.len() > 0 {
        s.drop_first()
    } else {
        s
    }
}

/// What remains of the recorded sequence `s` after `n` draws.
pub open spec fn remaining_draws(s: Seq<u32>, n: nat) -> Seq<u32>
    decreases n,
{
    if n == 0 {
        s
    } else {
        draw_tail(remaining_draws(s, (n - 1) as nat))
    }
}

/// Supplies unsigned integers, one per call; the only operation the maze
/// generator performs on a source.
pub trait RandomSource {
    /// The recorded draws this source will still return, in order.
    spec fn draws(&self) -> Seq<u32>;

    fn next_u32(&mut self) -> (r: u32)
        ensures
            r == draw_head(old(self).draws()),
            final(self).draws() == draw_tail(old(self).draws()),
    ;
}

/// A deterministic source that replays a recorded sequence of draws and
/// returns zero once the recording is exhausted.
pub struct ReplaySource {
    values: Vec<u32>,
    index: usize,
}

impl ReplaySource {
    pub fn new(values: Vec<u32>) -> (r: ReplaySource)
        ensures
            r.draws() == values@,
    {
        ReplaySource { values, index: 0 }
    }
}

impl RandomSource for ReplaySource {
    closed spec fn draws(&self) -> Seq<u32> {
        if self.index <= self.values@.len() {
            self.values@.skip(self.index as int)
        } else {
            Seq::empty()
        }
    }

    fn next_u32(&mut self) -> (r: u32)
        ensures
            r == draw_head(old(self).draws()),
            final(self).draws() == draw_tail(old(self).draws()),
    {
        if self.index < self.values.len() {
            let r = self.values[self.index];
            self.index = self.index + 1;
            proof {
                assert(old(self).draws()[0] == r);
                assert(self.draws() =~= draw_tail(old(self).draws()));
            }
            r
        } else {
            proof {
                assert(self.draws() =~= draw_tail(old(self).draws()));
            }
            0
        }
    }
}

} // verus!

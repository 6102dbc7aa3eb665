//! Playback schedule: the fixed order in which the animation's frames are
//! shown — every idle frame in order, one prep frame, then every tap frame.

use vstd::prelude::*;

verus! {

pub const IDLE_FRAMES: usize = 5;

pub const TAP_FRAMES: usize = 2;

/// One step of the animation schedule.
#[derive(PartialEq, Eq, Structural, Clone, Copy, Debug)]
pub enum Frame {
    Idle(usize),
    Prep,
    Tap(usize),
}

/// The full schedule: idle frames in index order, one prep frame, then tap
/// frames in index order.
pub fn all_frames() -> (r: Vec<Frame>)
    ensures
        r@.len() == IDLE_FRAMES + 1 + TAP_FRAMES,
        forall|k: int| 0 <= k < IDLE_FRAMES ==> r@[k] == Frame::Idle(k as usize),
        r@[IDLE_FRAMES as int] == Frame::Prep,
        forall|k: int| 0 <= k < TAP_FRAMES ==> #[trigger] r@[IDLE_FRAMES + 1 + k] == Frame::Tap(k as usize),
{
    let mut out: Vec<Frame> = Vec::new();
    let mut i: usize = 0;
    while i < IDLE_FRAMES
        invariant
            0 <= i <= IDLE_FRAMES,
            out@.len() == i,
            forall|k: int| 0 <= k < i ==> out@[k] == Frame::Idle(k as usize),
        decreases IDLE_FRAMES - i,
    {
        out.push(Frame::Idle(i));
        i = i + 1;
    }
    out.push(Frame::Prep);
    let mut j: usize = 0;
    while j < TAP_FRAMES
        invariant
            0 <= j <= TAP_FRAMES,
            out@.len() == IDLE_FRAMES + 1 + j,
            forall|k: int| 0 <= k < IDLE_FRAMES ==> out@[k] == Frame::Idle(k as usize),
            out@[IDLE_FRAMES as int] == Frame::Prep,
            forall|k: int| 0 <= k < j ==> #[trigger] out@[IDLE_FRAMES + 1 + k] == Frame::Tap(k as usize),
        decreases TAP_FRAMES - j,
    {
        out.push(Frame::Tap(j));
        j = j + 1;
    }
    out
}

} // verus!

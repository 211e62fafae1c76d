//! The cue-synchronized playback controller: a state machine over the
//! current cue index.  It consumes position and lifecycle reports from the
//! playback engine and manual advance/retreat commands, and answers each
//! with the engine instruction to perform.  The caller owns the engine and
//! the threads; every decision lives here.

use vstd::prelude::*;

use crate::cues::{get_spec, lemma_locate_bounds, locate_spec, Cues};
use crate::time::{end_spec, ticks, Time};

verus! {

/// The fallback frame rate used until the engine has reported one.
pub const DEFAULT_FPS: u32 = 60;

/// One instruction for the playback engine.
#[derive(Debug, Clone, Copy, PartialEq, Eq, Structural)]
pub enum EngineAction {
    /// Nothing to perform.
    NoOp,
    /// Pause playback.
    Pause,
    /// Seek to an absolute position, given in frame ticks at the
    /// controller's frame rate (divide by the rate for seconds).
    SeekTo(u64),
    /// Seek to the end of the media.
    SeekToEnd,
}

/// The stateful controller: one cue table, the frame rate once the engine
/// has reported it, and the index of the last cue the playhead is believed
/// to have reached.  The index is the only state both the event stream and
/// the command side mutate; the caller serializes access to it.
pub struct PlaybackSyncController {
    /// The cue table, read-only for the controller's lifetime.
    pub cues: Cues,
    /// The frame rate the engine reported at load, if any.
    pub fps: Option<u32>,
    /// The 1-based index of the last cue reached: 0 before the first cue,
    /// `cues.len() + 1` past the last.
    pub current: usize,
}

impl PlaybackSyncController {
    /// The frame rate in effect: the reported one, or the default until a
    /// report arrives.
    pub open spec fn eff_fps(self) -> int {
        match self.fps {
            Some(f) => f as int,
            None => DEFAULT_FPS as int,
        }
    }

    /// The controller invariant: a well-formed table and an index between
    /// the implicit start and one past the last cue.
    pub open spec fn wf(self) -> bool {
        self.cues.wf() && self.current as int <= self.cues@.len() + 1
    }

    /// A fresh controller at the start of the video, bound to one table.
    pub fn new(cues: Cues) -> (c: Self)
        requires
            cues.wf(),
        ensures
            c.wf(),
            c.cues == cues,
            c.fps is None,
            c.current == 0,
    {
        PlaybackSyncController { cues, fps: None, current: 0 }
    }

    /// The index of the last cue reached, for the caller's display.
    pub fn current_index(&self) -> (i: usize)
        ensures
            i == self.current,
    {
        self.current
    }

    /// The frame rate in effect.
    pub fn fps(&self) -> (f: u32)
        ensures
            f as int == self.eff_fps(),
    {
        match self.fps {
            Some(f) => f,
            None => DEFAULT_FPS,
        }
    }

    /// The engine reported the loaded media's frame rate: remember it.  A
    /// later load overwrites the earlier rate.
    pub fn on_media_loaded(&mut self, fps: u32)
        ensures
            final(self).cues == old(self).cues,
            final(self).current == old(self).current,
            final(self).fps == Some(fps),
    {
        self.fps = Some(fps);
    }

    /// The engine reported the playback position, in frame ticks.  The
    /// index is re-derived from the position; playback pauses exactly when
    /// the index strictly increased, so each cue crossing pauses at most
    /// once however often the engine repeats nearby positions, and an
    /// external rewind re-anchors the index without a spurious pause.
    pub fn on_position_report(&mut self, pos: u64) -> (act: EngineAction)
        requires
            old(self).wf(),
        ensures
            final(self).wf(),
            final(self).cues == old(self).cues,
            final(self).fps == old(self).fps,
            final(self).current as int == locate_spec(
                old(self).cues@,
                pos as int,
                old(self).eff_fps(),
            ),
            act == (if locate_spec(old(self).cues@, pos as int, old(self).eff_fps()) > old(
                self,
            ).current as int {
                EngineAction::Pause
            } else {
                EngineAction::NoOp
            }),
    {
        let fps = self.fps();
        let new_idx = self.cues.current(pos, fps);
        proof {
            lemma_locate_bounds(self.cues@, pos as int, fps as int);
        }
        let act = if new_idx > self.current {
            EngineAction::Pause
        } else {
            EngineAction::NoOp
        };
        self.current = new_idx;
        act
    }

    /// The position changed for a reason the controller did not cause to a
    /// pause (an external scrub, or a seek it issued itself): re-anchor the
    /// index without pausing.
    pub fn on_external_seek(&mut self, pos: u64)
        requires
            old(self).wf(),
        ensures
            final(self).wf(),
            final(self).cues == old(self).cues,
            final(self).fps == old(self).fps,
            final(self).current as int == locate_spec(
                old(self).cues@,
                pos as int,
                old(self).eff_fps(),
            ),
    {
        let fps = self.fps();
        let new_idx = self.cues.current(pos, fps);
        proof {
            lemma_locate_bounds(self.cues@, pos as int, fps as int);
        }
        self.current = new_idx;
    }

    /// Step forward to the next cue.  Past the end this is a no-op; at the
    /// boundary to the end it asks for a seek to the end of the media; else
    /// it asks for a seek to the next cue's instant.
    pub fn advance(&mut self) -> (act: EngineAction)
        requires
            old(self).wf(),
        ensures
            final(self).wf(),
            final(self).cues == old(self).cues,
            final(self).fps == old(self).fps,
            old(self).current as int > old(self).cues@.len() ==> act == EngineAction::NoOp
                && final(self).current == old(self).current,
            old(self).current as int <= old(self).cues@.len() && get_spec(
                old(self).cues@,
                old(self).current as int + 1,
            ) == end_spec() ==> act == EngineAction::SeekToEnd && final(self).current as int == old(
                self,
            ).cues@.len() + 1,
            old(self).current as int <= old(self).cues@.len() && get_spec(
                old(self).cues@,
                old(self).current as int + 1,
            ) != end_spec() ==> final(self).current == old(self).current + 1 && act
                == EngineAction::SeekTo(
                (ticks(get_spec(old(self).cues@, old(self).current as int + 1), old(
                    self,
                ).eff_fps()) as u64),
            ),
    {
        let len = self.cues.len();
        if self.current > len {
            return EngineAction::NoOp;
        }
        let target = self.current + 1;
        let t = self.cues.get(target);
        if t.is_end() {
            self.current = len + 1;
            EngineAction::SeekToEnd
        } else {
            let fps = self.fps();
            let pos = t.as_frames(fps);
            self.current = target;
            EngineAction::SeekTo(pos)
        }
    }

    /// Step back to the previous cue (index 0, the start of the video, at
    /// the lowest).  Always asks for a seek; seeking leaves the engine's
    /// play state unchanged.
    pub fn retreat(&mut self) -> (act: EngineAction)
        requires
            old(self).wf(),
        ensures
            final(self).wf(),
            final(self).cues == old(self).cues,
            final(self).fps == old(self).fps,
            final(self).current as int == (if old(self).current > 0 {
                old(self).current as int - 1
            } else {
                0
            }),
            act == EngineAction::SeekTo(
                (ticks(get_spec(old(self).cues@, final(self).current as int), old(
                    self,
                ).eff_fps()) as u64),
            ),
    {
        let target = if self.current > 0 {
            self.current - 1
        } else {
            0
        };
        let t = self.cues.get(target);
        let fps = self.fps();
        let pos = t.as_frames(fps);
        self.current = target;
        EngineAction::SeekTo(pos)
    }
}

/// Idempotence of position reports: when one report of `pos` has taken the
/// controller from `c0` to `c1` (as the contract of `on_position_report`
/// describes), a second report of the same `pos` taking `c1` to `c2` with
/// action `a2` moves nothing and issues no pause.
pub proof fn lemma_report_idempotent(
    c0: PlaybackSyncController,
    c1: PlaybackSyncController,
    c2: PlaybackSyncController,
    pos: int,
    a2: EngineAction,
)
    requires
        c1.cues@ == c0.cues@,
        c1.fps == c0.fps,
        c1.current as int == locate_spec(c0.cues@, pos, c0.eff_fps()),
        c2.cues@ == c1.cues@,
        c2.fps == c1.fps,
        c2.current as int == locate_spec(c1.cues@, pos, c1.eff_fps()),
        a2 == (if locate_spec(c1.cues@, pos, c1.eff_fps()) > c1.current as int {
            EngineAction::Pause
        } else {
            EngineAction::NoOp
        }),
    ensures
        c2.current == c1.current,
        a2 == EngineAction::NoOp,
{
}

} // verus!

//! The playback schedule: which tone changes and waits belong to each video
//! frame, worked out against a software clock that only ever moves by the
//! waits it hands out.
//!
//! The caller owns the hardware. For every frame it asks [`PlaybackClock::schedule_frame`]
//! for the frame's actions and performs them in order; when the frames run out
//! it performs [`PlaybackClock::finish`].

use crate::midi::MidiEvent;
use vstd::prelude::*;

verus! {

/// One thing for the caller to do.
#[derive(Debug, Clone, Copy, PartialEq, Eq, Structural)]
pub enum Action {
    /// Block for this many milliseconds.
    Delay(u32),
    /// Start sounding this note.
    ToneOn(u8),
    /// Stop the tone.
    ToneOff,
    /// Show the frame.
    Present,
}

/// The software clock of a playback session.
#[derive(Debug, Clone, Copy, PartialEq, Eq, Structural)]
pub struct PlaybackClock {
    /// Milliseconds of waiting handed out so far.
    pub elapsed_ms: u64,
    /// Index of the first note that is not over yet.
    pub next_event_idx: usize,
}

/// Where draining the notes of one window ends up.
pub struct Drained {
    /// The tone changes and the waits between them.
    pub actions: Seq<Action>,
    /// The clock after the last wait.
    pub elapsed: int,
    /// The first note that is left for a later window.
    pub idx: int,
}

/// A wait of `ms` milliseconds, or nothing when there is nothing to wait for.
pub open spec fn wait(ms: int) -> Seq<Action> {
    if ms > 0 {
        seq![Action::Delay(ms as u32)]
    } else {
        seq![]
    }
}

/// The later of two instants.
pub open spec fn later(a: int, b: int) -> int {
    if a >= b {
        a
    } else {
        b
    }
}

/// Walks the notes from `idx` on that start before `limit`, with the clock at
/// `elapsed`.
///
/// A note that starts at or after the clock is waited for and switched on; one
/// that started earlier is already sounding. A note that ends by `limit` is
/// waited out and switched off, and the walk goes on with the next one. A note
/// that ends after `limit` stops the walk and stays the current note.
pub open spec fn drain(events: Seq<MidiEvent>, elapsed: int, idx: int, limit: int) -> Drained
    decreases events.len() - idx,
{
    if idx < 0 || idx >= events.len() || events[idx].start() >= limit {
        Drained { actions: seq![], elapsed, idx }
    } else {
        let e = events[idx];
        let on = if e.start() >= elapsed {
            wait(e.start() - elapsed) + seq![Action::ToneOn(e.note)]
        } else {
            seq![]
        };
        let at_on = later(e.start(), elapsed);
        if e.end() > limit {
            Drained { actions: on, elapsed: at_on, idx }
        } else {
            let off = wait(e.end() - at_on) + seq![Action::ToneOff];
            let rest = drain(events, later(e.end(), at_on), idx + 1, limit);
            Drained { actions: on + off + rest.actions, elapsed: rest.elapsed, idx: rest.idx }
        }
    }
}

/// The actions of the frame whose window opens at `elapsed` and is
/// `frame_ms` long: the notes of the window, the frame itself unless it is
/// skipped, and the wait that fills the window.
pub open spec fn frame_actions(
    events: Seq<MidiEvent>,
    elapsed: int,
    idx: int,
    frame_ms: int,
    show: bool,
) -> Seq<Action> {
    let d = drain(events, elapsed, idx, elapsed + frame_ms);
    d.actions + (if show {
        seq![Action::Present]
    } else {
        seq![]
    }) + wait(elapsed + frame_ms - d.elapsed)
}

/// The sum of the waits in a list of actions.
pub open spec fn total_delay(actions: Seq<Action>) -> int
    decreases actions.len(),
{
    if actions.len() == 0 {
        0
    } else {
        total_delay(actions.drop_last()) + match actions.last() {
            Action::Delay(ms) => ms as int,
            _ => 0,
        }
    }
}

/// The clock after `frames` frames of `frame_ms` milliseconds each, started at zero.
pub open spec fn clock_after(events: Seq<MidiEvent>, frame_ms: int, frames: nat) -> (int, int)
    decreases frames,
{
    if frames == 0 {
        (0, 0)
    } else {
        let (elapsed, idx) = clock_after(events, frame_ms, (frames - 1) as nat);
        (elapsed + frame_ms, drain(events, elapsed, idx, elapsed + frame_ms).idx)
    }
}

pub(crate) proof fn lemma_total_delay_concat(a: Seq<Action>, b: Seq<Action>)
    ensures
        total_delay(a + b) == total_delay(a) + total_delay(b),
    decreases b.len(),
{
    if b.len() == 0 {
        assert(a + b =~= a);
    } else {
        lemma_total_delay_concat(a, b.drop_last());
        assert((a + b).drop_last() =~= a + b.drop_last());
        assert((a + b).last() == b.last());
    }
}

pub(crate) proof fn lemma_total_delay_small(ms: int, a: Action)
    requires
        0 <= ms <= u32::MAX,
        !(a is Delay),
    ensures
        total_delay(wait(ms)) == ms,
        total_delay(seq![a]) == 0,
        total_delay(Seq::<Action>::empty()) == 0,
{
    reveal_with_fuel(total_delay, 2);
    if ms > 0 {
        assert(wait(ms).drop_last() =~= Seq::<Action>::empty());
    }
    assert(seq![a].drop_last() =~= Seq::<Action>::empty());
}

/// Draining never moves the clock back nor past the end of the window, never
/// moves the note index back, and waits exactly as long as the clock moves.
pub proof fn lemma_drain_bounds(events: Seq<MidiEvent>, elapsed: int, idx: int, limit: int)
    requires
        0 <= elapsed <= limit,
        limit - elapsed <= u32::MAX,
        0 <= idx,
    ensures
        elapsed <= drain(events, elapsed, idx, limit).elapsed <= limit,
        idx <= drain(events, elapsed, idx, limit).idx,
        drain(events, elapsed, idx, limit).idx <= later(idx, events.len() as int),
        total_delay(drain(events, elapsed, idx, limit).actions) == drain(
            events,
            elapsed,
            idx,
            limit,
        ).elapsed - elapsed,
    decreases events.len() - idx,
{
    if idx >= events.len() || events[idx].start() >= limit {
        lemma_total_delay_small(0, Action::ToneOff);
    } else {
        let e = events[idx];
        let on = if e.start() >= elapsed {
            wait(e.start() - elapsed) + seq![Action::ToneOn(e.note)]
        } else {
            seq![]
        };
        let at_on = later(e.start(), elapsed);
        assert(total_delay(on) == at_on - elapsed) by {
            if e.start() >= elapsed {
                lemma_total_delay_small(e.start() - elapsed, Action::ToneOn(e.note));
                lemma_total_delay_concat(wait(e.start() - elapsed), seq![Action::ToneOn(e.note)]);
            } else {
                lemma_total_delay_small(0, Action::ToneOff);
            }
        }
        if e.end() > limit {
        } else {
            let at_off = later(e.end(), at_on);
            let off = wait(e.end() - at_on) + seq![Action::ToneOff];
            assert(total_delay(off) == at_off - at_on) by {
                if e.end() > at_on {
                    lemma_total_delay_small(e.end() - at_on, Action::ToneOff);
                } else {
                    lemma_total_delay_small(0, Action::ToneOff);
                }
                lemma_total_delay_concat(wait(e.end() - at_on), seq![Action::ToneOff]);
            }
            let rest = drain(events, at_off, idx + 1, limit);
            lemma_drain_bounds(events, at_off, idx + 1, limit);
            lemma_total_delay_concat(on, off);
            lemma_total_delay_concat(on + off, rest.actions);
        }
    }
}

/// The waits of one frame add up to the length of its window, whatever notes
/// fall into it and whether or not the frame is shown.
pub proof fn lemma_frame_fills_window(
    events: Seq<MidiEvent>,
    elapsed: int,
    idx: int,
    frame_ms: int,
    show: bool,
)
    requires
        0 <= elapsed,
        0 <= idx,
        0 <= frame_ms <= u32::MAX,
    ensures
        total_delay(frame_actions(events, elapsed, idx, frame_ms, show)) == frame_ms,
{
    let d = drain(events, elapsed, idx, elapsed + frame_ms);
    lemma_drain_bounds(events, elapsed, idx, elapsed + frame_ms);
    let mid = if show {
        seq![Action::Present]
    } else {
        seq![]
    };
    lemma_total_delay_small(elapsed + frame_ms - d.elapsed, Action::Present);
    lemma_total_delay_concat(d.actions, mid);
    lemma_total_delay_concat(d.actions + mid, wait(elapsed + frame_ms - d.elapsed));
}

/// No drift: after `frames` frames of `frame_ms` milliseconds the clock reads
/// exactly `frames * frame_ms`, whatever the notes are, and the note index has
/// not moved back.
pub proof fn lemma_drift_free(events: Seq<MidiEvent>, frame_ms: int, frames: nat)
    requires
        0 <= frame_ms <= u32::MAX,
    ensures
        clock_after(events, frame_ms, frames).0 == frames * frame_ms,
        0 <= clock_after(events, frame_ms, frames).1,
        frames > 0 ==> clock_after(events, frame_ms, (frames - 1) as nat).1 <= clock_after(
            events,
            frame_ms,
            frames,
        ).1,
    decreases frames,
{
    if frames == 0 {
        assert(frames * frame_ms == 0) by (nonlinear_arith)
            requires
                frames == 0,
        ;
    } else {
        let before = clock_after(events, frame_ms, (frames - 1) as nat);
        lemma_drift_free(events, frame_ms, (frames - 1) as nat);
        assert(before.0 >= 0) by (nonlinear_arith)
            requires
                before.0 == (frames - 1) * frame_ms,
                frames >= 1,
                frame_ms >= 0,
        ;
        lemma_drain_bounds(events, before.0, before.1, before.0 + frame_ms);
        assert((frames - 1) * frame_ms + frame_ms == frames * frame_ms) by (nonlinear_arith);
    }
}

impl PlaybackClock {
    /// The clock at the start of playback.
    pub fn new() -> (clock: PlaybackClock)
        ensures
            clock.elapsed_ms == 0,
            clock.next_event_idx == 0,
    {
        PlaybackClock { elapsed_ms: 0, next_event_idx: 0 }
    }

    /// Plans one frame of `frame_ms` milliseconds and moves the clock to the
    /// end of its window.
    ///
    /// The result lists, in order, what the caller has to do for this frame:
    /// the tone changes of the notes that fall into the window with the waits
    /// between them, `Present` unless `show` is false (a frame that could not
    /// be decoded is skipped, its window is not), and the wait for the rest of
    /// the window. The clock advances by `frame_ms` exactly.
    pub fn schedule_frame(&mut self, events: &[MidiEvent], frame_ms: u32, show: bool) -> (actions:
        Vec<Action>)
        requires
            old(self).elapsed_ms + frame_ms <= u64::MAX,
        ensures
            actions@ == frame_actions(
                events@,
                old(self).elapsed_ms as int,
                old(self).next_event_idx as int,
                frame_ms as int,
                show,
            ),
            final(self).elapsed_ms == old(self).elapsed_ms + frame_ms,
            final(self).next_event_idx == drain(
                events@,
                old(self).elapsed_ms as int,
                old(self).next_event_idx as int,
                old(self).elapsed_ms + frame_ms,
            ).idx,
            final(self).next_event_idx >= old(self).next_event_idx,
            total_delay(actions@) == frame_ms,
    {
        let ghost start_clock = self.elapsed_ms as int;
        let ghost start_idx = self.next_event_idx as int;
        let ghost whole = drain(events@, start_clock, start_idx, start_clock + frame_ms);
        let limit: u64 = self.elapsed_ms + frame_ms as u64;
        let mut actions: Vec<Action> = Vec::new();
        let mut elapsed: u64 = self.elapsed_ms;
        let mut idx: usize = self.next_event_idx;
        proof {
            lemma_drain_bounds(events@, start_clock, start_idx, limit as int);
            lemma_frame_fills_window(events@, start_clock, start_idx, frame_ms as int, show);
        }
        loop
            invariant_except_break
                whole.actions == actions@ + drain(
                    events@,
                    elapsed as int,
                    idx as int,
                    limit as int,
                ).actions,
                whole.elapsed == drain(events@, elapsed as int, idx as int, limit as int).elapsed,
                whole.idx == drain(events@, elapsed as int, idx as int, limit as int).idx,
            invariant
                limit == start_clock + frame_ms,
                start_clock <= elapsed <= limit,
                start_idx <= idx,
                whole == drain(events@, start_clock, start_idx, limit as int),
            ensures
                whole.actions == actions@,
                whole.elapsed == elapsed,
                whole.idx == idx,
                start_clock <= elapsed <= limit,
            decreases events@.len() - idx,
        {
            if idx >= events.len() {
                assert(actions@ + Seq::<Action>::empty() =~= actions@);
                break ;
            }
            let e = events[idx];
            if e.timestamp_ms >= limit {
                assert(actions@ + Seq::<Action>::empty() =~= actions@);
                break ;
            }
            let ghost before = actions@;
            let ghost pending = drain(events@, elapsed as int, idx as int, limit as int);
            if e.timestamp_ms >= elapsed {
                let gap = e.timestamp_ms - elapsed;
                if gap > 0 {
                    actions.push(Action::Delay(gap as u32));
                }
                actions.push(Action::ToneOn(e.note));
                elapsed = e.timestamp_ms;
            }
            if e.duration_ms as u64 > limit - e.timestamp_ms {
                assert(e.end() > limit);
                assert(before + pending.actions =~= actions@);
                break ;
            }
            let end: u64 = e.timestamp_ms + e.duration_ms as u64;
            if end > elapsed {
                actions.push(Action::Delay((end - elapsed) as u32));
                elapsed = end;
            }
            actions.push(Action::ToneOff);
            idx = idx + 1;
            assert(before + pending.actions =~= actions@ + drain(
                events@,
                elapsed as int,
                idx as int,
                limit as int,
            ).actions);
        }
        if show {
            actions.push(Action::Present);
        }
        let rest = limit - elapsed;
        if rest > 0 {
            actions.push(Action::Delay(rest as u32));
        }
        self.elapsed_ms = limit;
        self.next_event_idx = idx;
        assert(actions@ =~= frame_actions(events@, start_clock, start_idx, frame_ms as int, show));
        actions
    }

    /// What is left to do when the frames are exhausted: switch the tone off,
    /// so that no note is left sounding.
    pub fn finish(&self) -> (action: Action)
        ensures
            action == Action::ToneOff,
    {
        Action::ToneOff
    }
}

} // verus!

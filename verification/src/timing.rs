//! The schedule keeps time: whatever the length of the frames, every note of
//! a voice is switched on at its start and off at its end.

use crate::midi::MidiEvent;
use crate::mono::non_overlapping;
use crate::scheduler::{
    clock_after, drain, frame_actions, later, lemma_drain_bounds, lemma_drift_free,
    lemma_frame_fills_window, lemma_total_delay_concat, lemma_total_delay_small, total_delay,
    wait, Action,
};
use vstd::prelude::*;

verus! {

/// The tone changes of a list of actions, each with the instant at which it
/// is done when the first action is done at `at` and every wait takes as
/// long as it says.
pub open spec fn timed(actions: Seq<Action>, at: int) -> Seq<(int, Action)>
    decreases actions.len(),
{
    if actions.len() == 0 {
        Seq::empty()
    } else {
        let rest = actions.drop_first();
        match actions.first() {
            Action::Delay(ms) => timed(rest, at + ms),
            Action::Present => timed(rest, at),
            tone => seq![(at, tone)] + timed(rest, at),
        }
    }
}

/// The tone changes that the notes from `idx` on ask for up to `horizon`:
/// every note that starts before `horizon` is switched on at its start, and
/// switched off at its end where that is no later than `horizon`.
pub open spec fn tones_until(events: Seq<MidiEvent>, idx: int, horizon: int) -> Seq<(int, Action)>
    decreases events.len() - idx,
{
    if idx < 0 || idx >= events.len() || events[idx].start() >= horizon {
        Seq::empty()
    } else {
        let e = events[idx];
        let on = seq![(e.start(), Action::ToneOn(e.note))];
        if e.end() > horizon {
            on
        } else {
            on + seq![(e.end(), Action::ToneOff)] + tones_until(events, idx + 1, horizon)
        }
    }
}

/// The actions of the first `frames` frames of `frame_ms` milliseconds, each
/// of them shown.
pub open spec fn session_actions(events: Seq<MidiEvent>, frame_ms: int, frames: nat) -> Seq<Action>
    decreases frames,
{
    if frames == 0 {
        Seq::empty()
    } else {
        let (elapsed, idx) = clock_after(events, frame_ms, (frames - 1) as nat);
        session_actions(events, frame_ms, (frames - 1) as nat) + frame_actions(
            events,
            elapsed,
            idx,
            frame_ms,
            true,
        )
    }
}

proof fn lemma_delay_from_front(actions: Seq<Action>)
    requires
        actions.len() > 0,
    ensures
        total_delay(actions) == total_delay(actions.drop_first()) + match actions.first() {
            Action::Delay(ms) => ms as int,
            _ => 0,
        },
    decreases actions.len(),
{
    if actions.len() == 1 {
        assert(actions.drop_first() =~= Seq::<Action>::empty());
        assert(actions.drop_last() =~= Seq::<Action>::empty());
        assert(actions.first() == actions.last());
    } else {
        lemma_delay_from_front(actions.drop_last());
        assert(actions.drop_last().drop_first() =~= actions.drop_first().drop_last());
        assert(actions.drop_last().first() == actions.first());
        assert(actions.drop_first().last() == actions.last());
    }
}

proof fn lemma_timed_concat(a: Seq<Action>, b: Seq<Action>, at: int)
    ensures
        timed(a + b, at) == timed(a, at) + timed(b, at + total_delay(a)),
    decreases a.len(),
{
    if a.len() == 0 {
        assert(a + b =~= b);
        assert(timed(a, at) + timed(b, at) =~= timed(b, at));
    } else {
        lemma_delay_from_front(a);
        assert((a + b).drop_first() =~= a.drop_first() + b);
        assert((a + b).first() == a.first());
        match a.first() {
            Action::Delay(ms) => {
                lemma_timed_concat(a.drop_first(), b, at + ms);
            },
            Action::Present => {
                lemma_timed_concat(a.drop_first(), b, at);
            },
            tone => {
                lemma_timed_concat(a.drop_first(), b, at);
                assert(seq![(at, tone)] + (timed(a.drop_first(), at) + timed(
                    b,
                    at + total_delay(a),
                )) =~= (seq![(at, tone)] + timed(a.drop_first(), at)) + timed(
                    b,
                    at + total_delay(a),
                ));
            },
        }
    }
}

proof fn lemma_timed_small(ms: int, tone: Action, at: int)
    requires
        0 <= ms <= u32::MAX,
        tone is ToneOn || tone is ToneOff,
    ensures
        timed(wait(ms), at) == Seq::<(int, Action)>::empty(),
        timed(wait(ms) + seq![tone], at) == seq![(at + ms, tone)],
        timed(seq![Action::Present], at) == Seq::<(int, Action)>::empty(),
        timed(Seq::<Action>::empty(), at) == Seq::<(int, Action)>::empty(),
{
    reveal_with_fuel(timed, 3);
    let one = seq![tone];
    assert(one.drop_first() =~= Seq::<Action>::empty());
    assert(timed(one, at + ms) =~= seq![(at + ms, tone)]);
    assert(seq![Action::Present].drop_first() =~= Seq::<Action>::empty());
    if ms > 0 {
        assert(wait(ms).drop_first() =~= Seq::<Action>::empty());
        assert((wait(ms) + one).drop_first() =~= one);
        assert((wait(ms) + one).first() == Action::Delay(ms as u32));
    } else {
        assert(wait(ms) + one =~= one);
    }
}

/// Whether the note at `idx` has yet to start at the instant `elapsed`, or
/// there is no such note.
spec fn fresh(events: Seq<MidiEvent>, idx: int, elapsed: int) -> bool {
    idx >= events.len() || events[idx].start() >= elapsed
}

/// Whether the note at `idx` is sounding at the instant `elapsed`: it has
/// started and is not over.
spec fn carried(events: Seq<MidiEvent>, idx: int, elapsed: int) -> bool {
    idx < events.len() && events[idx].start() < elapsed < events[idx].end()
}

/// Whether the notes before `upto`, from `from` on, are over by `now`.
spec fn over(events: Seq<MidiEvent>, from: int, upto: int, now: int) -> bool {
    forall|j: int| from <= j < upto ==> (#[trigger] events[j]).start() < now && events[j].end() <= now
}

proof fn lemma_drain_fresh(events: Seq<MidiEvent>, elapsed: int, idx: int, limit: int)
    requires
        non_overlapping(events),
        0 <= elapsed <= limit,
        limit - elapsed <= u32::MAX,
        0 <= idx,
        fresh(events, idx, elapsed),
    ensures
        timed(drain(events, elapsed, idx, limit).actions, elapsed) == tones_until(events, idx, limit),
        idx <= drain(events, elapsed, idx, limit).idx,
        over(events, idx, drain(events, elapsed, idx, limit).idx, limit),
        fresh(events, drain(events, elapsed, idx, limit).idx, limit) || carried(
            events,
            drain(events, elapsed, idx, limit).idx,
            limit,
        ),
    decreases events.len() - idx,
{
    if idx >= events.len() || events[idx].start() >= limit {
        lemma_timed_small(0, Action::ToneOff, elapsed);
    } else {
        let e = events[idx];
        let gap = wait(e.start() - elapsed);
        let on = gap + seq![Action::ToneOn(e.note)];
        lemma_timed_small(e.start() - elapsed, Action::ToneOn(e.note), elapsed);
        assert(later(e.start(), elapsed) == e.start());
        lemma_total_delay_small(e.start() - elapsed, Action::ToneOn(e.note));
        lemma_total_delay_concat(gap, seq![Action::ToneOn(e.note)]);
        assert(total_delay(on) == e.start() - elapsed);
        if e.end() > limit {
        } else {
            let off = wait(e.end() - e.start()) + seq![Action::ToneOff];
            lemma_timed_small(e.end() - e.start(), Action::ToneOff, e.start());
            lemma_total_delay_small(e.end() - e.start(), Action::ToneOff);
            lemma_total_delay_concat(wait(e.end() - e.start()), seq![Action::ToneOff]);
            assert(total_delay(off) == e.end() - e.start());
            assert(later(e.end(), e.start()) == e.end());
            let rest = drain(events, e.end(), idx + 1, limit);
            assert(fresh(events, idx + 1, e.end())) by {
                if idx + 1 < events.len() {
                    assert(events[idx].end() <= events[idx + 1].start());
                }
            }
            lemma_drain_fresh(events, e.end(), idx + 1, limit);
            lemma_total_delay_concat(on, off);
            lemma_timed_concat(on, off, elapsed);
            lemma_timed_concat(on + off, rest.actions, elapsed);
            assert(drain(events, elapsed, idx, limit).actions == on + off + rest.actions);
            assert forall|j: int| idx <= j < rest.idx implies (#[trigger] events[j]).start() < limit
                && events[j].end() <= limit by {}
        }
    }
}

/// One window: what the notes from `idx` on ask for up to the end of the
/// window is what they asked for up to its start, and then the tone changes
/// of the window, each at its instant.
proof fn lemma_window(events: Seq<MidiEvent>, elapsed: int, idx: int, limit: int)
    requires
        non_overlapping(events),
        0 <= elapsed <= limit,
        limit - elapsed <= u32::MAX,
        0 <= idx,
        fresh(events, idx, elapsed) || carried(events, idx, elapsed),
    ensures
        tones_until(events, idx, limit) == tones_until(events, idx, elapsed) + timed(
            drain(events, elapsed, idx, limit).actions,
            elapsed,
        ),
        idx <= drain(events, elapsed, idx, limit).idx,
        over(events, idx, drain(events, elapsed, idx, limit).idx, limit),
        fresh(events, drain(events, elapsed, idx, limit).idx, limit) || carried(
            events,
            drain(events, elapsed, idx, limit).idx,
            limit,
        ),
{
    let d = drain(events, elapsed, idx, limit);
    if fresh(events, idx, elapsed) {
        lemma_drain_fresh(events, elapsed, idx, limit);
        assert(tones_until(events, idx, elapsed) =~= Seq::<(int, Action)>::empty()) by {
            if idx < events.len() && events[idx].start() < elapsed {
            }
        }
        assert(Seq::<(int, Action)>::empty() + timed(d.actions, elapsed) =~= timed(
            d.actions,
            elapsed,
        ));
    } else {
        let e = events[idx];
        let on = seq![(e.start(), Action::ToneOn(e.note))];
        assert(tones_until(events, idx, elapsed) == on);
        assert(later(e.start(), elapsed) == elapsed);
        if e.end() > limit {
            lemma_timed_small(0, Action::ToneOff, elapsed);
            assert(on + Seq::<(int, Action)>::empty() =~= on);
        } else {
            let off = wait(e.end() - elapsed) + seq![Action::ToneOff];
            lemma_timed_small(e.end() - elapsed, Action::ToneOff, elapsed);
            lemma_total_delay_small(e.end() - elapsed, Action::ToneOff);
            lemma_total_delay_concat(wait(e.end() - elapsed), seq![Action::ToneOff]);
            assert(later(e.end(), elapsed) == e.end());
            let rest = drain(events, e.end(), idx + 1, limit);
            assert(fresh(events, idx + 1, e.end())) by {
                if idx + 1 < events.len() {
                    assert(events[idx].end() <= events[idx + 1].start());
                }
            }
            lemma_drain_fresh(events, e.end(), idx + 1, limit);
            assert(d.actions =~= off + rest.actions);
            lemma_timed_concat(off, rest.actions, elapsed);
            assert(on + (seq![(e.end(), Action::ToneOff)] + tones_until(events, idx + 1, limit))
                =~= on + seq![(e.end(), Action::ToneOff)] + tones_until(events, idx + 1, limit));
            assert forall|j: int| idx <= j < rest.idx implies (#[trigger] events[j]).start() < limit
                && events[j].end() <= limit by {}
        }
    }
}

/// The tone changes of the notes from `from` up to `upto`, each switched on
/// at its start and off at its end.
spec fn closed(events: Seq<MidiEvent>, from: int, upto: int) -> Seq<(int, Action)>
    decreases upto - from,
{
    if from >= upto {
        Seq::empty()
    } else {
        seq![(events[from].start(), Action::ToneOn(events[from].note))] + seq![
            (events[from].end(), Action::ToneOff),
        ] + closed(events, from + 1, upto)
    }
}

proof fn lemma_closed_first(events: Seq<MidiEvent>, from: int, upto: int, horizon: int)
    requires
        0 <= from <= upto <= events.len(),
        over(events, from, upto, horizon),
    ensures
        tones_until(events, from, horizon) == closed(events, from, upto) + tones_until(
            events,
            upto,
            horizon,
        ),
    decreases upto - from,
{
    if from >= upto {
        assert(Seq::<(int, Action)>::empty() + tones_until(events, upto, horizon) =~= tones_until(
            events,
            upto,
            horizon,
        ));
    } else {
        let e = events[from];
        assert(e.start() < horizon && e.end() <= horizon);
        lemma_closed_first(events, from + 1, upto, horizon);
        let on = seq![(e.start(), Action::ToneOn(e.note))];
        let off = seq![(e.end(), Action::ToneOff)];
        assert(on + off + (closed(events, from + 1, upto) + tones_until(events, upto, horizon))
            =~= (on + off + closed(events, from + 1, upto)) + tones_until(events, upto, horizon));
    }
}

proof fn lemma_session(events: Seq<MidiEvent>, frame_ms: int, frames: nat)
    requires
        non_overlapping(events),
        0 <= frame_ms <= u32::MAX,
    ensures
        clock_after(events, frame_ms, frames).0 == frames * frame_ms,
        0 <= clock_after(events, frame_ms, frames).0,
        0 <= clock_after(events, frame_ms, frames).1 <= events.len(),
        over(
            events,
            0,
            clock_after(events, frame_ms, frames).1,
            clock_after(events, frame_ms, frames).0,
        ),
        fresh(
            events,
            clock_after(events, frame_ms, frames).1,
            clock_after(events, frame_ms, frames).0,
        ) || carried(
            events,
            clock_after(events, frame_ms, frames).1,
            clock_after(events, frame_ms, frames).0,
        ),
        total_delay(session_actions(events, frame_ms, frames)) == clock_after(
            events,
            frame_ms,
            frames,
        ).0,
        timed(session_actions(events, frame_ms, frames), 0) == tones_until(
            events,
            0,
            clock_after(events, frame_ms, frames).0,
        ),
    decreases frames,
{
    lemma_drift_free(events, frame_ms, frames);
    if frames == 0 {
        lemma_timed_small(0, Action::ToneOff, 0);
        lemma_total_delay_small(0, Action::ToneOff);
        assert(tones_until(events, 0, 0) =~= Seq::<(int, Action)>::empty());
    } else {
        let before = (frames - 1) as nat;
        lemma_session(events, frame_ms, before);
        let (start, idx) = clock_after(events, frame_ms, before);
        let limit = start + frame_ms;
        let d = drain(events, start, idx, limit);
        let past = session_actions(events, frame_ms, before);
        let frame = frame_actions(events, start, idx, frame_ms, true);
        assert(session_actions(events, frame_ms, frames) == past + frame);
        assert(clock_after(events, frame_ms, frames) == (limit, d.idx));
        lemma_drain_bounds(events, start, idx, limit);
        lemma_window(events, start, idx, limit);
        assert(over(events, 0, d.idx, limit)) by {
            assert forall|j: int| 0 <= j < d.idx implies (#[trigger] events[j]).start() < limit
                && events[j].end() <= limit by {
                if j < idx {
                    assert(events[j].start() < start && events[j].end() <= start);
                }
            }
        }
        // the waits of the session so far
        lemma_frame_fills_window(events, start, idx, frame_ms, true);
        lemma_total_delay_concat(past, frame);
        // the tone changes of the frame are those of its notes
        let shown = seq![Action::Present];
        let rest = wait(limit - d.elapsed);
        assert(frame == d.actions + shown + rest);
        lemma_timed_concat(d.actions + shown, rest, start);
        lemma_timed_concat(d.actions, shown, start);
        lemma_timed_small(limit - d.elapsed, Action::ToneOff, start + total_delay(d.actions + shown));
        lemma_timed_small(0, Action::ToneOff, start + total_delay(d.actions));
        assert(timed(frame, start) =~= timed(d.actions, start));
        lemma_timed_concat(past, frame, 0);
        // and what was asked for up to the end of the frame is what was
        // asked for up to its start, and then those
        lemma_closed_first(events, 0, idx, start);
        lemma_closed_first(events, 0, idx, limit);
        let done = closed(events, 0, idx);
        assert(done + (tones_until(events, idx, start) + timed(d.actions, start)) =~= (done
            + tones_until(events, idx, start)) + timed(d.actions, start));
    }
}

/// On time, whatever the frames: over a session of any number of frames of
/// any length, every note of a voice whose notes do not overlap is switched
/// on at the instant of its start and off at the instant of its end, as far
/// as the session reaches. The instants are those of the software clock,
/// which moves by the waits alone.
pub proof fn lemma_tones_on_time(events: Seq<MidiEvent>, frame_ms: int, frames: nat)
    requires
        non_overlapping(events),
        0 <= frame_ms <= u32::MAX,
    ensures
        timed(session_actions(events, frame_ms, frames), 0) == tones_until(
            events,
            0,
            frames * frame_ms,
        ),
        total_delay(session_actions(events, frame_ms, frames)) == frames * frame_ms,
{
    lemma_session(events, frame_ms, frames);
}

} // verus!

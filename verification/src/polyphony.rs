//! How many notes of a file sound at once, how many there are and how long
//! the file is.

use crate::midi::{MidiEvent, MidiInfo};
use crate::mono::span_end;
use crate::sort::{sort_ranked, stable_sort, Ranked};
use vstd::prelude::*;

verus! {

/// A note that is switched on or off.
#[derive(Debug, Clone, Copy, PartialEq, Eq, Structural)]
pub struct Toggle {
    /// When, in milliseconds.
    pub time: u64,
    /// Whether the note is switched on; otherwise off.
    pub is_on: bool,
    /// Which note.
    pub note: u8,
}

impl Ranked for Toggle {
    /// By time alone.
    open spec fn rank(&self) -> (int, int) {
        (self.time as int, 0)
    }

    fn ranks_before(&self, other: &Self) -> (b: bool) {
        self.time < other.time
    }
}

/// The toggles of the notes, in the order of the notes: for each its start,
/// then its stop.
pub open spec fn toggles(events: Seq<MidiEvent>) -> Seq<Toggle>
    decreases events.len(),
{
    if events.len() == 0 {
        Seq::empty()
    } else {
        let e = events.last();
        toggles(events.drop_last()).push(
            Toggle { time: e.timestamp_ms, is_on: true, note: e.note },
        ).push(Toggle { time: span_end(e) as u64, is_on: false, note: e.note })
    }
}

/// `active` without any note of number `note`.
pub open spec fn without(active: Seq<u8>, note: u8) -> Seq<u8>
    decreases active.len(),
{
    if active.len() == 0 {
        active
    } else if active.last() == note {
        without(active.drop_last(), note)
    } else {
        without(active.drop_last(), note).push(active.last())
    }
}

/// The notes that are on, and the most that were on at once.
pub struct Polyphony {
    /// The notes that are on, in the order in which they were switched on.
    pub active: Seq<u8>,
    /// The largest number of notes that were on at once so far.
    pub most: int,
}

/// One toggle: a note switched on joins the notes that are on; a note
/// switched off takes every note of its number with it.
pub open spec fn polyphony_step(p: Polyphony, t: Toggle) -> Polyphony {
    if t.is_on {
        let active = p.active.push(t.note);
        Polyphony {
            active,
            most: if active.len() > p.most {
                active.len() as int
            } else {
                p.most
            },
        }
    } else {
        Polyphony { active: without(p.active, t.note), most: p.most }
    }
}

/// The toggles `ts`, first to last, from silence.
pub open spec fn polyphony(ts: Seq<Toggle>) -> Polyphony
    decreases ts.len(),
{
    if ts.len() == 0 {
        Polyphony { active: Seq::empty(), most: 0 }
    } else {
        polyphony_step(polyphony(ts.drop_last()), ts.last())
    }
}

/// The summary of `events`: the most notes on at once when the toggles are
/// taken in order of time, the number of notes, and the instant at which the
/// last note of `events` stops.
pub open spec fn summary(events: Seq<MidiEvent>) -> MidiInfo {
    if events.len() == 0 {
        MidiInfo { max_simultaneous_notes: 0, total_notes: 0, duration_ms: 0 }
    } else {
        MidiInfo {
            max_simultaneous_notes: polyphony(stable_sort(toggles(events))).most as usize,
            total_notes: events.len() as usize,
            duration_ms: span_end(events.last()) as u64,
        }
    }
}

/// The start and the stop of every note of `events`.
fn toggles_of(events: &[MidiEvent]) -> (timeline: Vec<Toggle>)
    ensures
        timeline@ == toggles(events@),
{
    let mut timeline: Vec<Toggle> = Vec::new();
    let mut i: usize = 0;
    assert(events@.take(0) =~= Seq::<MidiEvent>::empty());
    while i < events.len()
        invariant
            i <= events@.len(),
            timeline@ == toggles(events@.take(i as int)),
        decreases events@.len() - i,
    {
        let e = events[i];
        let stop = e.timestamp_ms.saturating_add(e.duration_ms as u64);
        proof {
            assert(events@.take(i + 1).drop_last() =~= events@.take(i as int));
            assert(events@.take(i + 1).last() == e);
        }
        timeline.push(Toggle { time: e.timestamp_ms, is_on: true, note: e.note });
        timeline.push(Toggle { time: stop, is_on: false, note: e.note });
        i = i + 1;
    }
    assert(events@.take(events@.len() as int) =~= events@);
    timeline
}

/// Takes every `note` out of `active`.
fn remove_all(active: &Vec<u8>, note: u8) -> (kept: Vec<u8>)
    ensures
        kept@ == without(active@, note),
{
    let mut kept: Vec<u8> = Vec::new();
    let mut i: usize = 0;
    assert(active@.take(0) =~= Seq::<u8>::empty());
    while i < active.len()
        invariant
            i <= active@.len(),
            kept@ == without(active@.take(i as int), note),
        decreases active@.len() - i,
    {
        proof {
            assert(active@.take(i + 1).drop_last() =~= active@.take(i as int));
            assert(active@.take(i + 1).last() == active@[i as int]);
        }
        if active[i] != note {
            kept.push(active[i]);
        }
        i = i + 1;
    }
    assert(active@.take(active@.len() as int) =~= active@);
    kept
}

/// Summarises `events`, which are taken to be in order of their start: the
/// most notes that are on at once, the number of notes, and the instant at
/// which the last of them stops.
///
/// The notes are switched on and off in order of time; what falls on one
/// instant keeps the order of `events`, a note's start before its stop. A
/// note switched off silences every note of its number.
pub fn summarize(events: &[MidiEvent]) -> (info: MidiInfo)
    ensures
        info == summary(events@),
{
    if events.len() == 0 {
        return MidiInfo { max_simultaneous_notes: 0, total_notes: 0, duration_ms: 0 };
    }
    let timeline = toggles_of(events);
    let sorted = sort_ranked(&timeline);
    let mut active: Vec<u8> = Vec::new();
    let mut most: usize = 0;
    let mut k: usize = 0;
    assert(sorted@.take(0) =~= Seq::<Toggle>::empty());
    while k < sorted.len()
        invariant
            k <= sorted@.len(),
            active@ == polyphony(sorted@.take(k as int)).active,
            most == polyphony(sorted@.take(k as int)).most,
        decreases sorted@.len() - k,
    {
        let t = sorted[k];
        proof {
            assert(sorted@.take(k + 1).drop_last() =~= sorted@.take(k as int));
            assert(sorted@.take(k + 1).last() == t);
        }
        if t.is_on {
            active.push(t.note);
            if active.len() > most {
                most = active.len();
            }
        } else {
            active = remove_all(&active, t.note);
        }
        k = k + 1;
    }
    assert(sorted@.take(sorted@.len() as int) =~= sorted@);
    let last = events[events.len() - 1];
    MidiInfo {
        max_simultaneous_notes: most,
        total_notes: events.len(),
        duration_ms: last.timestamp_ms.saturating_add(last.duration_ms as u64),
    }
}

} // verus!

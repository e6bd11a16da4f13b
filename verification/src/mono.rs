//! Reduction of a set of notes that may overlap to a single voice: at every
//! instant the highest note that is sounding.

use crate::midi::{clamp_length, MidiEvent};
use crate::sort::{ascending, lemma_stable_sort, rank_lt, sort_ranked, stable_sort, Ranked};
use vstd::multiset::Multiset;
use vstd::prelude::*;

verus! {

broadcast use vstd::multiset::group_multiset_axioms;

/// The velocity given to every note of the single voice.
pub const MONO_VELOCITY: u8 = 64;

/// The instant at which a note starts or stops.
#[derive(Debug, Clone, Copy, PartialEq, Eq, Structural)]
pub struct Boundary {
    /// When, in milliseconds.
    pub time: u64,
    /// Whether the note starts here; otherwise it stops.
    pub is_start: bool,
    /// Which note.
    pub note: u8,
}

impl Ranked for Boundary {
    /// By time; at one instant, stops come before starts.
    open spec fn rank(&self) -> (int, int) {
        (
            self.time as int,
            if self.is_start {
                1
            } else {
                0
            },
        )
    }

    fn ranks_before(&self, other: &Self) -> (b: bool) {
        self.time < other.time || (self.time == other.time && !self.is_start && other.is_start)
    }
}

/// The instant at which a note stops, held to the range of the clock.
pub open spec fn span_end(e: MidiEvent) -> int {
    if e.end() <= u64::MAX {
        e.end()
    } else {
        u64::MAX as int
    }
}

/// Whether a note sounds at all: one of no length does not.
pub open spec fn sounds(e: MidiEvent) -> bool {
    e.start() < span_end(e)
}

/// The boundaries of the notes that sound, in the order of the notes: for
/// each its start, then its stop. Notes that do not sound have none.
pub open spec fn boundaries(events: Seq<MidiEvent>) -> Seq<Boundary>
    decreases events.len(),
{
    if events.len() == 0 {
        Seq::empty()
    } else {
        let e = events.last();
        let before = boundaries(events.drop_last());
        if sounds(e) {
            before.push(Boundary { time: e.timestamp_ms, is_start: true, note: e.note }).push(
                Boundary { time: span_end(e) as u64, is_start: false, note: e.note },
            )
        } else {
            before
        }
    }
}

/// The highest note below `bound` that `active` holds.
pub open spec fn highest_below(active: Multiset<u8>, bound: int) -> Option<u8>
    decreases bound,
{
    if bound <= 0 {
        None
    } else if active.count((bound - 1) as u8) > 0 {
        Some((bound - 1) as u8)
    } else {
        highest_below(active, bound - 1)
    }
}

/// The highest note that `active` holds, if it holds any.
pub open spec fn highest(active: Multiset<u8>) -> Option<u8> {
    highest_below(active, 256)
}

/// The note of the single voice that sounds `note` from `since` until `until`.
pub open spec fn voiced(note: u8, since: u64, until: u64) -> MidiEvent {
    MidiEvent {
        timestamp_ms: since,
        note,
        velocity: MONO_VELOCITY,
        duration_ms: clamp_length(until - since),
    }
}

/// The state of the sweep over the boundaries.
pub struct Sweep {
    /// The notes that are sounding, each as often as it was started and not yet stopped.
    pub active: Multiset<u8>,
    /// The note that the single voice is sounding, and since when.
    pub current: Option<(u8, u64)>,
    /// The notes of the single voice that are over.
    pub emitted: Seq<MidiEvent>,
}

/// The note that the voice takes up at `time` when `top` is the highest one sounding.
pub open spec fn taken_up(top: Option<u8>, time: u64) -> Option<(u8, u64)> {
    match top {
        Some(note) => Some((note, time)),
        None => None,
    }
}

/// One boundary: the note joins or leaves the sounding notes; if the highest
/// of them is no longer what the voice sounds, the voice's note is over at
/// this instant and the highest, if there is one, is taken up at the same instant.
pub open spec fn sweep_step(s: Sweep, b: Boundary) -> Sweep {
    let active = if b.is_start {
        s.active.insert(b.note)
    } else {
        s.active.remove(b.note)
    };
    let top = highest(active);
    match s.current {
        Some((playing, since)) => if top == Some(playing) {
            Sweep { active, current: s.current, emitted: s.emitted }
        } else {
            Sweep {
                active,
                current: taken_up(top, b.time),
                emitted: s.emitted.push(voiced(playing, since, b.time)),
            }
        },
        None => Sweep { active, current: taken_up(top, b.time), emitted: s.emitted },
    }
}

/// The sweep over `bs`, first to last, from silence.
pub open spec fn sweep(bs: Seq<Boundary>) -> Sweep
    decreases bs.len(),
{
    if bs.len() == 0 {
        Sweep { active: Multiset::empty(), current: None, emitted: Seq::empty() }
    } else {
        sweep_step(sweep(bs.drop_last()), bs.last())
    }
}

/// The single voice of `events`: at every instant the highest note sounding.
pub open spec fn mono_reduction(events: Seq<MidiEvent>) -> Seq<MidiEvent> {
    sweep(stable_sort(boundaries(events))).emitted
}

/// Every note is over before any later one starts.
pub open spec fn non_overlapping(voice: Seq<MidiEvent>) -> bool {
    forall|i: int, j: int|
        0 <= i < j < voice.len() ==> (#[trigger] voice[i]).end() <= (#[trigger] voice[j]).start()
}

/// What holds of the sweep once every boundary up to the instant `now` is
/// behind it.
pub open spec fn sweep_settled(s: Sweep, now: int) -> bool {
    &&& non_overlapping(s.emitted)
    &&& forall|k: int| 0 <= k < s.emitted.len() ==> (#[trigger] s.emitted[k]).end() <= now
    &&& s.current matches Some((_, since)) ==> {
        &&& since <= now
        &&& forall|k: int| 0 <= k < s.emitted.len() ==> (#[trigger] s.emitted[k]).end() <= since
    }
}

/// The instant of the last boundary of `bs`, and zero where there is none.
pub open spec fn last_time(bs: Seq<Boundary>) -> int {
    if bs.len() == 0 {
        0
    } else {
        bs.last().time as int
    }
}

pub(crate) proof fn lemma_sweep_settled(bs: Seq<Boundary>)
    requires
        ascending(bs),
    ensures
        sweep_settled(sweep(bs), last_time(bs)),
    decreases bs.len(),
{
    if bs.len() > 0 {
        let before = bs.drop_last();
        let b = bs.last();
        assert forall|i: int, j: int| 0 <= i < j < before.len() implies !rank_lt(
            #[trigger] before[j].rank(),
            #[trigger] before[i].rank(),
        ) by {
            assert(before[i] == bs[i] && before[j] == bs[j]);
        }
        lemma_sweep_settled(before);
        let s = sweep(before);
        let t = sweep_step(s, b);
        assert(last_time(before) <= b.time) by {
            if before.len() > 0 {
                assert(before.last() == bs[bs.len() - 2]);
                assert(!rank_lt(bs[bs.len() - 1].rank(), bs[bs.len() - 2].rank()));
            }
        }
        if t.emitted.len() > s.emitted.len() {
            let (playing, since) = s.current->0;
            let e = voiced(playing, since, b.time);
            assert(t.emitted == s.emitted.push(e));
            assert(e.end() <= b.time);
            assert forall|i: int, j: int| 0 <= i < j < t.emitted.len() implies (
            #[trigger] t.emitted[i]).end() <= (#[trigger] t.emitted[j]).start() by {
                if j < s.emitted.len() {
                    assert(t.emitted[i] == s.emitted[i] && t.emitted[j] == s.emitted[j]);
                } else {
                    assert(t.emitted[i] == s.emitted[i]);
                }
            }
            assert forall|k: int| 0 <= k < t.emitted.len() implies (#[trigger] t.emitted[k]).end()
                <= b.time by {
                if k < s.emitted.len() {
                    assert(t.emitted[k] == s.emitted[k]);
                }
            }
        }
    }
}

/// The single voice is in order of time and no two of its notes overlap.
pub proof fn lemma_mono_non_overlapping(events: Seq<MidiEvent>)
    ensures
        non_overlapping(mono_reduction(events)),
{
    lemma_stable_sort(boundaries(events));
    lemma_sweep_settled(stable_sort(boundaries(events)));
}

pub(crate) proof fn lemma_highest_found(active: Multiset<u8>, bound: int, top: int)
    requires
        0 <= top < bound <= 256,
        active.count(top as u8) > 0,
        forall|n: u8| top < n ==> active.count(n) == 0,
    ensures
        highest_below(active, bound) == Some(top as u8),
    decreases bound,
{
    if bound - 1 > top {
        assert(active.count((bound - 1) as u8) == 0);
        lemma_highest_found(active, bound - 1, top);
    }
}

pub(crate) proof fn lemma_highest_none(active: Multiset<u8>, bound: int)
    requires
        bound <= 256,
        forall|n: u8| active.count(n) == 0,
    ensures
        highest_below(active, bound) is None,
    decreases bound,
{
    if bound > 0 {
        lemma_highest_none(active, bound - 1);
    }
}

/// The start and the stop of every note of `events` that sounds.
fn boundaries_of(events: &[MidiEvent]) -> (timeline: Vec<Boundary>)
    ensures
        timeline@ == boundaries(events@),
{
    let mut timeline: Vec<Boundary> = Vec::new();
    let mut i: usize = 0;
    assert(events@.take(0) =~= Seq::<MidiEvent>::empty());
    while i < events.len()
        invariant
            i <= events@.len(),
            timeline@ == boundaries(events@.take(i as int)),
        decreases events@.len() - i,
    {
        let e = events[i];
        let stop = e.timestamp_ms.saturating_add(e.duration_ms as u64);
        proof {
            assert(events@.take(i + 1).drop_last() =~= events@.take(i as int));
            assert(events@.take(i + 1).last() == e);
            assert(stop == span_end(e));
        }
        if e.timestamp_ms < stop {
            timeline.push(Boundary { time: e.timestamp_ms, is_start: true, note: e.note });
            timeline.push(Boundary { time: stop, is_start: false, note: e.note });
        }
        i = i + 1;
    }
    assert(events@.take(events@.len() as int) =~= events@);
    timeline
}

/// The highest of the notes in `active`.
fn highest_of(active: &Vec<u8>) -> (top: Option<u8>)
    ensures
        top == highest(active@.to_multiset()),
{
    let mut top: Option<u8> = None;
    let mut i: usize = 0;
    while i < active.len()
        invariant
            i <= active@.len(),
            top is None <==> i == 0,
            top matches Some(m) ==> (exists|j: int| 0 <= j < i && active@[j] == m) && forall|j: int|
                0 <= j < i ==> active@[j] <= m,
        decreases active@.len() - i,
    {
        let n = active[i];
        match top {
            Some(m) => {
                if n > m {
                    top = Some(n);
                }
            },
            None => {
                top = Some(n);
            },
        }
        i = i + 1;
    }
    proof {
        let held = active@.to_multiset();
        match top {
            Some(m) => {
                let j = choose|j: int| 0 <= j < active@.len() && active@[j] == m;
                assert(active@.contains(m));
                vstd::seq_lib::to_multiset_contains(active@, m);
                assert forall|n: u8| m < n implies held.count(n) == 0 by {
                    vstd::seq_lib::to_multiset_contains(active@, n);
                    if active@.contains(n) {
                        let k = choose|k: int| 0 <= k < active@.len() && active@[k] == n;
                        assert(active@[k] <= m);
                    }
                }
                lemma_highest_found(held, 256, m as int);
            },
            None => {
                assert forall|n: u8| held.count(n) == 0 by {
                    vstd::seq_lib::to_multiset_contains(active@, n);
                    if active@.contains(n) {
                        let k = choose|k: int| 0 <= k < active@.len() && active@[k] == n;
                    }
                }
                lemma_highest_none(held, 256);
            },
        }
    }
    top
}

/// Takes one `note` out of `active`, if it holds one.
fn remove_one(active: &mut Vec<u8>, note: u8)
    ensures
        final(active)@.to_multiset() == old(active)@.to_multiset().remove(note),
{
    let mut i: usize = 0;
    while i < active.len()
        invariant
            i <= active@.len(),
            active@ == old(active)@,
            forall|j: int| 0 <= j < i ==> active@[j] != note,
        decreases active@.len() - i,
    {
        if active[i] == note {
            proof {
                vstd::seq_lib::to_multiset_remove(active@, i as int);
            }
            active.remove(i);
            return ;
        }
        i = i + 1;
    }
    proof {
        vstd::seq_lib::to_multiset_contains(active@, note);
        if active@.contains(note) {
            let k = choose|k: int| 0 <= k < active@.len() && active@[k] == note;
        }
        assert(active@.to_multiset().remove(note) =~= active@.to_multiset());
    }
}

/// A length of `until - since` milliseconds, or the longest there is.
fn length_between(since: u64, until: u64) -> (ms: u32)
    ensures
        ms == clamp_length(until - since),
{
    let span = until.saturating_sub(since);
    if span > u32::MAX as u64 {
        u32::MAX
    } else {
        span as u32
    }
}

/// Reduces `events` to a single voice: at every instant the highest note
/// that is sounding.
///
/// The starts and stops of the notes are taken in order of time, stops before
/// starts at one instant. Whenever the highest sounding note changes, the
/// voice's note is over at that instant and the new highest, if there is one,
/// starts at the same instant. Notes of no length take no part. The notes of
/// the result never overlap.
pub fn reduce(events: &[MidiEvent]) -> (voice: Vec<MidiEvent>)
    ensures
        voice@ == mono_reduction(events@),
        non_overlapping(voice@),
{
    let timeline = boundaries_of(events);
    let sorted = sort_ranked(&timeline);
    let mut active: Vec<u8> = Vec::new();
    let mut current: Option<(u8, u64)> = None;
    let mut voice: Vec<MidiEvent> = Vec::new();
    let mut k: usize = 0;
    proof {
        lemma_mono_non_overlapping(events@);
        assert(sorted@.take(0) =~= Seq::<Boundary>::empty());
        vstd::seq_lib::to_multiset_len(active@);
        vstd::multiset::lemma_multiset_empty_len(active@.to_multiset());
        assert(active@.to_multiset() =~= Multiset::<u8>::empty());
    }
    while k < sorted.len()
        invariant
            k <= sorted@.len(),
            active@.to_multiset() == sweep(sorted@.take(k as int)).active,
            current == sweep(sorted@.take(k as int)).current,
            voice@ == sweep(sorted@.take(k as int)).emitted,
        decreases sorted@.len() - k,
    {
        let b = sorted[k];
        proof {
            assert(sorted@.take(k + 1).drop_last() =~= sorted@.take(k as int));
            assert(sorted@.take(k + 1).last() == b);
        }
        if b.is_start {
            proof {
                vstd::seq_lib::to_multiset_build(active@, b.note);
            }
            active.push(b.note);
        } else {
            remove_one(&mut active, b.note);
        }
        let top = highest_of(&active);
        let next = match top {
            Some(note) => Some((note, b.time)),
            None => None,
        };
        match current {
            Some((playing, since)) => {
                let same = match top {
                    Some(note) => note == playing,
                    None => false,
                };
                if !same {
                    voice.push(
                        MidiEvent {
                            timestamp_ms: since,
                            note: playing,
                            velocity: MONO_VELOCITY,
                            duration_ms: length_between(since, b.time),
                        },
                    );
                    current = next;
                }
            },
            None => {
                current = next;
            },
        }
        k = k + 1;
    }
    assert(sorted@.take(sorted@.len() as int) =~= sorted@);
    voice
}

} // verus!

//! What the single voice is: at every instant the highest of the notes that
//! sound at that instant, and silence when none does.

use crate::midi::MidiEvent;
use crate::mono::{
    boundaries, highest, last_time, lemma_highest_none, lemma_mono_non_overlapping,
    lemma_sweep_settled, mono_reduction, sounds, span_end, sweep, sweep_step, voiced, Boundary,
    Sweep,
};
use crate::sort::{ascending, lemma_insert_place, lemma_stable_sort, rank_lt, stable_sort, Ranked};
use vstd::multiset::Multiset;
use vstd::prelude::*;

verus! {

broadcast use vstd::multiset::group_multiset_axioms;

/// The notes that sound at the instant `t`: the note of every event that has
/// started by then and has not stopped, as often as there are such events.
pub open spec fn sounding_at(events: Seq<MidiEvent>, t: int) -> Multiset<u8>
    decreases events.len(),
{
    if events.len() == 0 {
        Multiset::empty()
    } else {
        let e = events.last();
        let before = sounding_at(events.drop_last(), t);
        if e.start() <= t < span_end(e) {
            before.insert(e.note)
        } else {
            before
        }
    }
}

/// The note that the voice sounds at the instant `t`, if it sounds one.
pub open spec fn voice_at(voice: Seq<MidiEvent>, t: int) -> Option<u8>
    decreases voice.len(),
{
    if voice.len() == 0 {
        None
    } else if voice.last().start() <= t < voice.last().end() {
        Some(voice.last().note)
    } else {
        voice_at(voice.drop_last(), t)
    }
}

/// One where the boundary is of this kind and this note and no later than
/// `upto`, zero where it is not.
spec fn hit(b: Boundary, is_start: bool, note: u8, upto: int) -> int {
    if b.is_start == is_start && b.note == note && b.time <= upto {
        1
    } else {
        0
    }
}

/// The number of boundaries of this kind and this note that are no later
/// than `upto`.
spec fn tally(q: Seq<Boundary>, is_start: bool, note: u8, upto: int) -> int
    decreases q.len(),
{
    if q.len() == 0 {
        0
    } else {
        tally(q.drop_last(), is_start, note, upto) + hit(q.last(), is_start, note, upto)
    }
}

proof fn lemma_tally_insert(q: Seq<Boundary>, p: int, x: Boundary, is_start: bool, note: u8, upto: int)
    requires
        0 <= p <= q.len(),
    ensures
        tally(q.insert(p, x), is_start, note, upto) == tally(q, is_start, note, upto) + hit(
            x,
            is_start,
            note,
            upto,
        ),
    decreases q.len() - p,
{
    let r = q.insert(p, x);
    if p == q.len() {
        assert(r.drop_last() =~= q);
        assert(r.last() == x);
    } else {
        assert(r.drop_last() =~= q.drop_last().insert(p, x));
        assert(r.last() == q.last());
        lemma_tally_insert(q.drop_last(), p, x, is_start, note, upto);
    }
}

proof fn lemma_tally_sorted(q: Seq<Boundary>, is_start: bool, note: u8, upto: int)
    ensures
        tally(stable_sort(q), is_start, note, upto) == tally(q, is_start, note, upto),
    decreases q.len(),
{
    if q.len() > 0 {
        lemma_tally_sorted(q.drop_last(), is_start, note, upto);
        let p = lemma_insert_place(stable_sort(q.drop_last()), q.last());
        lemma_tally_insert(stable_sort(q.drop_last()), p, q.last(), is_start, note, upto);
    }
}

proof fn lemma_tally_split(q: Seq<Boundary>, j: int, is_start: bool, note: u8, upto: int)
    requires
        0 <= j <= q.len(),
    ensures
        tally(q, is_start, note, upto) == tally(q.take(j), is_start, note, upto) + tally(
            q.skip(j),
            is_start,
            note,
            upto,
        ),
    decreases q.len(),
{
    if j == q.len() {
        assert(q.take(j) =~= q);
        assert(q.skip(j) =~= Seq::<Boundary>::empty());
    } else {
        assert(q.drop_last().take(j) =~= q.take(j));
        assert(q.drop_last().skip(j) =~= q.skip(j).drop_last());
        assert(q.skip(j).last() == q.last());
        lemma_tally_split(q.drop_last(), j, is_start, note, upto);
    }
}

proof fn lemma_tally_bounds(q: Seq<Boundary>, is_start: bool, note: u8, a: int, b: int)
    requires
        a <= b,
    ensures
        0 <= tally(q, is_start, note, a) <= tally(q, is_start, note, b),
        (forall|i: int| 0 <= i < q.len() ==> (#[trigger] q[i]).time > a) ==> tally(
            q,
            is_start,
            note,
            a,
        ) == 0,
        (forall|i: int| 0 <= i < q.len() ==> (#[trigger] q[i]).time <= a) ==> tally(
            q,
            is_start,
            note,
            a,
        ) == tally(q, is_start, note, b),
    decreases q.len(),
{
    if q.len() > 0 {
        let head = q.drop_last();
        lemma_tally_bounds(head, is_start, note, a, b);
        if forall|i: int| 0 <= i < q.len() ==> (#[trigger] q[i]).time > a {
            assert forall|i: int| 0 <= i < head.len() implies (#[trigger] head[i]).time > a by {
                assert(head[i] == q[i]);
            }
            assert(q[q.len() - 1].time > a);
        }
        if forall|i: int| 0 <= i < q.len() ==> (#[trigger] q[i]).time <= a {
            assert forall|i: int| 0 <= i < head.len() implies (#[trigger] head[i]).time <= a by {
                assert(head[i] == q[i]);
            }
            assert(q[q.len() - 1].time <= a);
        }
    }
}

/// The number of events of this note that sound and have started by `upto`.
spec fn begun(events: Seq<MidiEvent>, note: u8, upto: int) -> int
    decreases events.len(),
{
    if events.len() == 0 {
        0
    } else {
        let e = events.last();
        begun(events.drop_last(), note, upto) + if sounds(e) && e.note == note && e.start()
            <= upto {
            1int
        } else {
            0int
        }
    }
}

/// The number of events of this note that sound and have stopped by `upto`.
spec fn ended(events: Seq<MidiEvent>, note: u8, upto: int) -> int
    decreases events.len(),
{
    if events.len() == 0 {
        0
    } else {
        let e = events.last();
        ended(events.drop_last(), note, upto) + if sounds(e) && e.note == note && span_end(e)
            <= upto {
            1int
        } else {
            0int
        }
    }
}

proof fn lemma_tally_events(events: Seq<MidiEvent>, note: u8, upto: int)
    ensures
        tally(boundaries(events), true, note, upto) == begun(events, note, upto),
        tally(boundaries(events), false, note, upto) == ended(events, note, upto),
    decreases events.len(),
{
    if events.len() > 0 {
        let e = events.last();
        lemma_tally_events(events.drop_last(), note, upto);
        if sounds(e) {
            let before = boundaries(events.drop_last());
            let s = Boundary { time: e.timestamp_ms, is_start: true, note: e.note };
            let x = Boundary { time: span_end(e) as u64, is_start: false, note: e.note };
            let all = before.push(s).push(x);
            assert(boundaries(events) == all);
            assert(all.drop_last() =~= before.push(s));
            assert(before.push(s).drop_last() =~= before);
            assert(all.last() == x);
            assert(before.push(s).last() == s);
            assert(tally(before.push(s), true, note, upto) == tally(before, true, note, upto)
                + hit(s, true, note, upto));
            assert(tally(before.push(s), false, note, upto) == tally(before, false, note, upto)
                + hit(s, false, note, upto));
            assert(tally(all, true, note, upto) == tally(before.push(s), true, note, upto) + hit(
                x,
                true,
                note,
                upto,
            ));
            assert(tally(all, false, note, upto) == tally(before.push(s), false, note, upto)
                + hit(x, false, note, upto));
        } else {
            assert(boundaries(events) == boundaries(events.drop_last()));
        }
    }
}

proof fn lemma_sounding_count(events: Seq<MidiEvent>, note: u8, t: int)
    ensures
        sounding_at(events, t).count(note) == begun(events, note, t) - ended(events, note, t),
        0 <= ended(events, note, t) <= begun(events, note, t - 1) <= begun(events, note, t),
        t < 0 ==> begun(events, note, t) == 0,
        t >= u64::MAX ==> ended(events, note, t) == begun(events, note, t),
    decreases events.len(),
{
    if events.len() > 0 {
        lemma_sounding_count(events.drop_last(), note, t);
    }
}

/// The boundaries of the notes in the order in which the sweep takes them.
spec fn swept(events: Seq<MidiEvent>) -> Seq<Boundary> {
    stable_sort(boundaries(events))
}

proof fn lemma_times_ascend(q: Seq<Boundary>, i: int, j: int)
    requires
        ascending(q),
        0 <= i <= j < q.len(),
    ensures
        q[i].time <= q[j].time,
{
    if i < j {
        assert(!rank_lt(q[j].rank(), q[i].rank()));
    }
}

proof fn lemma_prefix_ascends(q: Seq<Boundary>, k: int)
    requires
        ascending(q),
        0 <= k <= q.len(),
    ensures
        ascending(q.take(k)),
{
    assert forall|i: int, j: int| 0 <= i < j < q.take(k).len() implies !rank_lt(
        #[trigger] q.take(k)[j].rank(),
        #[trigger] q.take(k)[i].rank(),
    ) by {
        assert(q.take(k)[i] == q[i] && q.take(k)[j] == q[j]);
    }
}

/// In every stretch of the sweep from its start, no more notes of one number
/// have stopped than have started.
proof fn lemma_dominance(events: Seq<MidiEvent>, j: int, note: u8)
    requires
        0 <= j <= swept(events).len(),
    ensures
        tally(swept(events).take(j), false, note, u64::MAX as int) <= tally(
            swept(events).take(j),
            true,
            note,
            u64::MAX as int,
        ),
{
    let q = swept(events);
    let far = u64::MAX as int;
    lemma_stable_sort(boundaries(events));
    if j == 0 {
        assert(q.take(0) =~= Seq::<Boundary>::empty());
    } else {
        let now = q[j - 1].time as int;
        assert forall|i: int| 0 <= i < q.take(j).len() implies (#[trigger] q.take(j)[i]).time
            <= now by {
            assert(q.take(j)[i] == q[i]);
            lemma_times_ascend(q, i, j - 1);
        }
        assert forall|i: int| 0 <= i < q.skip(j).len() implies (#[trigger] q.skip(j)[i]).time > now
            - 1 by {
            assert(q.skip(j)[i] == q[i + j]);
            lemma_times_ascend(q, j - 1, i + j);
        }
        // the stops of the stretch are stops by now
        lemma_tally_bounds(q.take(j), false, note, now, far);
        lemma_tally_split(q, j, false, note, now);
        lemma_tally_bounds(q.skip(j), false, note, now, far);
        lemma_tally_sorted(boundaries(events), false, note, now);
        lemma_tally_events(events, note, now);
        // a note that has stopped by now had started before now
        lemma_sounding_count(events, note, now);
        // and the starts before now are all in the stretch
        lemma_tally_events(events, note, now - 1);
        lemma_tally_sorted(boundaries(events), true, note, now - 1);
        lemma_tally_split(q, j, true, note, now - 1);
        lemma_tally_bounds(q.skip(j), true, note, now - 1, far);
        lemma_tally_bounds(q.take(j), true, note, now - 1, far);
    }
}

/// After any stretch of the sweep, a note sounds as often as it has started
/// and not stopped.
proof fn lemma_active_count(events: Seq<MidiEvent>, k: int, note: u8)
    requires
        0 <= k <= swept(events).len(),
    ensures
        sweep(swept(events).take(k)).active.count(note) == tally(
            swept(events).take(k),
            true,
            note,
            u64::MAX as int,
        ) - tally(swept(events).take(k), false, note, u64::MAX as int),
    decreases k,
{
    let q = swept(events);
    let far = u64::MAX as int;
    if k == 0 {
        assert(q.take(0) =~= Seq::<Boundary>::empty());
    } else {
        let b = q[k - 1];
        assert(q.take(k).drop_last() =~= q.take(k - 1));
        assert(q.take(k).last() == b);
        lemma_active_count(events, k - 1, note);
        lemma_dominance(events, k, note);
        lemma_dominance(events, k - 1, note);
        let before = sweep(q.take(k - 1));
        assert(sweep(q.take(k)) == sweep_step(before, b));
        assert(tally(q.take(k), true, note, far) == tally(q.take(k - 1), true, note, far) + hit(
            b,
            true,
            note,
            far,
        ));
        assert(tally(q.take(k), false, note, far) == tally(q.take(k - 1), false, note, far)
            + hit(b, false, note, far));
    }
}

/// Once every boundary up to the instant `t` is behind the sweep and no
/// later one, the notes that are sounding in the sweep are the notes that
/// sound at `t`.
proof fn lemma_active_at(events: Seq<MidiEvent>, k: int, t: int)
    requires
        0 <= k <= swept(events).len(),
        forall|i: int| 0 <= i < k ==> (#[trigger] swept(events)[i]).time <= t,
        forall|i: int| k <= i < swept(events).len() ==> (#[trigger] swept(events)[i]).time > t,
    ensures
        sweep(swept(events).take(k)).active == sounding_at(events, t),
{
    let q = swept(events);
    let far = u64::MAX as int;
    assert forall|note: u8|
        sweep(q.take(k)).active.count(note) == sounding_at(events, t).count(note) by {
        lemma_active_count(events, k, note);
        assert forall|i: int| 0 <= i < q.take(k).len() implies (#[trigger] q.take(k)[i]).time
            <= t by {
            assert(q.take(k)[i] == q[i]);
        }
        assert forall|i: int| 0 <= i < q.skip(k).len() implies (#[trigger] q.skip(k)[i]).time
            > t by {
            assert(q.skip(k)[i] == q[i + k]);
        }
        if t <= far {
            lemma_tally_bounds(q.take(k), true, note, t, far);
            lemma_tally_bounds(q.take(k), false, note, t, far);
        } else {
            lemma_tally_bounds(q.take(k), true, note, far, t);
            lemma_tally_bounds(q.take(k), false, note, far, t);
            assert forall|i: int| 0 <= i < q.take(k).len() implies (#[trigger] q.take(k)[i]).time
                <= far by {}
        }
        lemma_tally_split(q, k, true, note, t);
        lemma_tally_split(q, k, false, note, t);
        lemma_tally_bounds(q.skip(k), true, note, t, t);
        lemma_tally_bounds(q.skip(k), false, note, t, t);
        lemma_tally_sorted(boundaries(events), true, note, t);
        lemma_tally_sorted(boundaries(events), false, note, t);
        lemma_tally_events(events, note, t);
        lemma_sounding_count(events, note, t);
    }
    assert(sweep(q.take(k)).active =~= sounding_at(events, t));
}

/// Whether no note of the voice is as long as a length can say at most: a
/// note that long may have been cut short.
pub open spec fn plain(voice: Seq<MidiEvent>) -> bool {
    forall|i: int| 0 <= i < voice.len() ==> (#[trigger] voice[i]).duration_ms < u32::MAX
}

proof fn lemma_current_is_top(bs: Seq<Boundary>)
    ensures
        match sweep(bs).current {
            Some((note, _)) => highest(sweep(bs).active) == Some(note),
            None => highest(sweep(bs).active) is None,
        },
    decreases bs.len(),
{
    if bs.len() > 0 {
        lemma_current_is_top(bs.drop_last());
        let s = sweep(bs.drop_last());
        let after = sweep_step(s, bs.last());
        assert(sweep(bs) == after);
    } else {
        lemma_highest_none(Multiset::<u8>::empty(), 256);
    }
}

proof fn lemma_silent(voice: Seq<MidiEvent>, t: int)
    requires
        forall|i: int| 0 <= i < voice.len() ==> (#[trigger] voice[i]).end() <= t || t
            < voice[i].start(),
    ensures
        voice_at(voice, t) is None,
    decreases voice.len(),
{
    if voice.len() > 0 {
        let head = voice.drop_last();
        assert forall|i: int| 0 <= i < head.len() implies (#[trigger] head[i]).end() <= t || t
            < head[i].start() by {
            assert(head[i] == voice[i]);
        }
        lemma_silent(head, t);
        assert(voice[voice.len() - 1].end() <= t || t < voice[voice.len() - 1].start());
    }
}

/// What the sweep knows of the instant `t` once it is past it: where the
/// voice is still sounding the note it took up by then, that note is the
/// highest that sounds at `t`; otherwise what the notes that are over say of
/// `t` is so.
spec fn settled_at(s: Sweep, events: Seq<MidiEvent>, t: int) -> bool {
    match s.current {
        Some((note, since)) => if since <= t {
            voice_at(s.emitted, t) is None && highest(sounding_at(events, t)) == Some(note)
        } else {
            voice_at(s.emitted, t) == highest(sounding_at(events, t))
        },
        None => voice_at(s.emitted, t) == highest(sounding_at(events, t)),
    }
}

proof fn lemma_settled_at(events: Seq<MidiEvent>, k: int, t: int)
    requires
        0 <= k <= swept(events).len(),
        0 <= t < last_time(swept(events).take(k)),
        plain(sweep(swept(events).take(k)).emitted),
    ensures
        settled_at(sweep(swept(events).take(k)), events, t),
    decreases k,
{
    let q = swept(events);
    lemma_stable_sort(boundaries(events));
    if k == 0 {
        assert(q.take(0) =~= Seq::<Boundary>::empty());
    } else {
        let b = q[k - 1];
        let head = q.take(k - 1);
        assert(q.take(k).drop_last() =~= head);
        assert(q.take(k).last() == b);
        let s = sweep(head);
        let after = sweep_step(s, b);
        assert(sweep(q.take(k)) == after);
        let then = last_time(head);
        lemma_prefix_ascends(q, k - 1);
        lemma_sweep_settled(head);
        lemma_current_is_top(head);
        assert(then <= b.time) by {
            if k - 1 > 0 {
                assert(head.last() == q[k - 2]);
                lemma_times_ascend(q, k - 2, k - 1);
            }
        }
        // the notes that were over before this boundary are over after it
        assert(plain(s.emitted)) by {
            assert forall|i: int| 0 <= i < s.emitted.len() implies (#[trigger] s.emitted[i]).duration_ms
                < u32::MAX by {
                assert(after.emitted[i] == s.emitted[i]);
            }
        }
        let emits = after.emitted.len() > s.emitted.len();
        if emits {
            let (playing, since) = s.current->0;
            let e = voiced(playing, since, b.time);
            assert(after.emitted == s.emitted.push(e));
            assert(after.emitted[s.emitted.len() as int] == e);
            assert(e.duration_ms < u32::MAX);
            assert(e.start() == since && e.end() == b.time);
            assert(after.emitted.drop_last() =~= s.emitted);
            assert(after.emitted.last() == e);
        } else {
            assert(after.emitted == s.emitted);
        }
        if t < then {
            lemma_settled_at(events, k - 1, t);
        } else {
            // nothing happens between the boundary before and this one
            assert forall|i: int| 0 <= i < k - 1 implies (#[trigger] q[i]).time <= t by {
                lemma_times_ascend(q, i, k - 2);
                assert(head.last() == q[k - 2]);
            }
            assert forall|i: int| k - 1 <= i < q.len() implies (#[trigger] q[i]).time > t by {
                lemma_times_ascend(q, k - 1, i);
            }
            lemma_active_at(events, k - 1, t);
            assert forall|i: int| 0 <= i < s.emitted.len() implies (#[trigger] s.emitted[i]).end()
                <= t || t < s.emitted[i].start() by {}
            lemma_silent(s.emitted, t);
        }
    }
}

/// The single voice is the highest note: at every instant `t` the voice
/// sounds the highest of the notes that sound at `t`, and it is silent when
/// none does. This holds as far as no note of the voice is as long as a
/// length can say at most.
pub proof fn lemma_voice_is_highest(events: Seq<MidiEvent>, t: int)
    requires
        plain(mono_reduction(events)),
    ensures
        voice_at(mono_reduction(events), t) == highest(sounding_at(events, t)),
{
    let q = swept(events);
    let n = q.len() as int;
    let far = u64::MAX as int;
    let s = sweep(q);
    let last = last_time(q);
    assert(q.take(n) =~= q);
    lemma_stable_sort(boundaries(events));
    lemma_sweep_settled(q);
    // when the sweep is over nothing sounds
    assert(highest(sounding_at(events, far)) is None) by {
        assert forall|note: u8| sounding_at(events, far).count(note) == 0 by {
            lemma_sounding_count(events, note, far);
        }
        lemma_highest_none(sounding_at(events, far), 256);
    }
    lemma_active_at(events, n, far);
    lemma_current_is_top(q);
    assert(s.current is None);
    if t < 0 {
        assert forall|note: u8| sounding_at(events, t).count(note) == 0 by {
            lemma_sounding_count(events, note, t);
        }
        lemma_highest_none(sounding_at(events, t), 256);
        assert forall|i: int| 0 <= i < s.emitted.len() implies (#[trigger] s.emitted[i]).end() <= t
            || t < s.emitted[i].start() by {}
        lemma_silent(s.emitted, t);
    } else if t < last {
        lemma_settled_at(events, n, t);
    } else {
        assert forall|i: int| 0 <= i < n implies (#[trigger] q[i]).time <= t by {
            lemma_times_ascend(q, i, n - 1);
        }
        lemma_active_at(events, n, t);
        assert forall|i: int| 0 <= i < s.emitted.len() implies (#[trigger] s.emitted[i]).end() <= t
            || t < s.emitted[i].start() by {}
        lemma_silent(s.emitted, t);
    }
}

/// No gap without silence: where one note of the voice is over before the
/// next one starts, no note sounds in between. A change from one note to
/// another, with notes sounding all the while, leaves no gap.
pub proof fn lemma_gap_is_silence(events: Seq<MidiEvent>, i: int, t: int)
    requires
        plain(mono_reduction(events)),
        0 <= i,
        i + 1 < mono_reduction(events).len(),
        mono_reduction(events)[i].end() <= t < mono_reduction(events)[i + 1].start(),
    ensures
        highest(sounding_at(events, t)) is None,
{
    let voice = mono_reduction(events);
    lemma_mono_non_overlapping(events);
    assert forall|j: int| 0 <= j < voice.len() implies (#[trigger] voice[j]).end() <= t || t
        < voice[j].start() by {
        if j < i {
            assert(voice[j].end() <= voice[i].start());
        } else if j > i + 1 {
            assert(voice[i + 1].end() <= voice[j].start());
        }
    }
    lemma_silent(voice, t);
    lemma_voice_is_highest(events, t);
}

} // verus!

//! Standard MIDI File reader: header parsing, chronological merge of the
//! tracks, and the note events they hold.

use crate::mono::{mono_reduction, non_overlapping, reduce};
use crate::polyphony::{summarize, summary};
use crate::sort::{ascending, sort_ranked, stable_sort, Ranked};
use crate::vlq::{decode_vlq_in, lemma_vlq_range, vlq_at, vlq_overrun, VLQ_MAX};
use vstd::prelude::*;

verus! {

/// The signature of the file header, `MThd`.
pub const HEADER_SIGNATURE: u32 = 0x4D54_6864;

/// The signature of a track chunk, `MTrk`.
pub const TRACK_SIGNATURE: u32 = 0x4D54_726B;

/// The tempo of a file that sets none: microseconds per quarter note.
pub const DEFAULT_TEMPO: u32 = 500_000;

/// Why a file, or one event of it, could not be read.
#[derive(Debug, Clone, Copy, PartialEq, Eq, Structural)]
pub enum MidiError {
    /// The signature or the header length is not what the format demands, or
    /// the header counts zero ticks to the quarter note and a note was to be
    /// timed by it.
    HeaderMismatch,
    /// The buffer is shorter than the fourteen bytes of a header.
    TooSmall,
    /// A field or a declared length reaches past the bytes that are there.
    UnexpectedEof,
    /// An event whose status nibble is not one of the known kinds.
    UnsupportedEvent(u8),
}

/// One sounded note: when it starts, which note it is and how long it lasts.
#[derive(Debug, Clone, Copy, PartialEq, Eq, Structural)]
pub struct MidiEvent {
    /// Start, in milliseconds from the start of the file.
    pub timestamp_ms: u64,
    /// Note number; 60 is middle C.
    pub note: u8,
    /// Velocity of the note-on; carried along, not used by the speaker.
    pub velocity: u8,
    /// Length in milliseconds.
    pub duration_ms: u32,
}

impl MidiEvent {
    /// The instant at which the note starts.
    pub open spec fn start(self) -> int {
        self.timestamp_ms as int
    }

    /// The instant at which the note stops: its start plus its length.
    pub open spec fn end(self) -> int {
        self.timestamp_ms + self.duration_ms
    }
}

impl Default for MidiEvent {
    fn default() -> (r: Self)
        ensures
            r == (MidiEvent { timestamp_ms: 0, note: 0, velocity: 0, duration_ms: 0 }),
    {
        MidiEvent { timestamp_ms: 0, note: 0, velocity: 0, duration_ms: 0 }
    }
}

/// What is known of a file as a whole.
#[derive(Debug, Clone, Copy, PartialEq, Eq, Structural)]
pub struct MidiInfo {
    /// The largest number of notes that sound at once.
    pub max_simultaneous_notes: usize,
    /// The number of notes.
    pub total_notes: usize,
    /// The length of the file in milliseconds.
    pub duration_ms: u64,
}

impl MidiInfo {
    /// Whether no two notes of the file ever sound at once.
    pub fn is_monophonic(&self) -> (b: bool)
        ensures
            b == (self.max_simultaneous_notes <= 1),
    {
        self.max_simultaneous_notes <= 1
    }
}

impl Ranked for MidiEvent {
    /// By start alone.
    open spec fn rank(&self) -> (int, int) {
        (self.timestamp_ms as int, 0)
    }

    fn ranks_before(&self, other: &Self) -> (b: bool) {
        self.timestamp_ms < other.timestamp_ms
    }
}

/// The big-endian number in the two bytes at `pos`.
pub open spec fn be16(data: Seq<u8>, pos: int) -> int {
    data[pos] * 0x100 + data[pos + 1]
}

/// The big-endian number in the three bytes at `pos`.
pub open spec fn be24(data: Seq<u8>, pos: int) -> int {
    (data[pos] * 0x100 + data[pos + 1]) * 0x100 + data[pos + 2]
}

/// The big-endian number in the four bytes at `pos`.
pub open spec fn be32(data: Seq<u8>, pos: int) -> int {
    ((data[pos] * 0x100 + data[pos + 1]) * 0x100 + data[pos + 2]) * 0x100 + data[pos + 3]
}

/// A track as the contracts see it.
#[verifier::ext_equal]
pub struct TrackView {
    /// Where the track's bytes start in the file.
    pub start: int,
    /// Where the next unread byte of the track is.
    pub pos: int,
    /// Where the track's bytes end.
    pub end: int,
    /// The ticks that have passed up to the last event read.
    pub tick: int,
    /// The last status byte that was written out in full.
    pub running_status: u8,
    /// The notes that were switched on and not yet off, each with the tick of
    /// its start and the velocity of its note-on.
    pub open: Seq<(u8, u64, u8)>,
}

/// A reader as the contracts see it.
#[verifier::ext_equal]
pub struct ReaderView {
    /// The bytes of the file.
    pub data: Seq<u8>,
    /// Ticks per quarter note.
    pub ticks_per_quarter: u16,
    /// Microseconds per quarter note.
    pub tempo: u32,
    /// The tracks, in the order of the file.
    pub tracks: Seq<TrackView>,
}

/// A track that has not been read yet.
pub open spec fn fresh_track(start: int, end: int) -> TrackView {
    TrackView { start, pos: start, end, tick: 0, running_status: 0, open: Seq::empty() }
}

/// The chunk of one track at `pos`: where its events start and where they end.
///
/// A chunk is the track signature, a length of four bytes, and that many
/// bytes of events. One that does not start with the signature is a
/// `HeaderMismatch`; one that the file ends in is an `UnexpectedEof`.
pub open spec fn chunk_at(data: Seq<u8>, pos: int) -> Result<(int, int), MidiError> {
    if pos + 4 > data.len() {
        Err(MidiError::UnexpectedEof)
    } else if be32(data, pos) != TRACK_SIGNATURE {
        Err(MidiError::HeaderMismatch)
    } else if pos + 8 > data.len() {
        Err(MidiError::UnexpectedEof)
    } else if pos + 8 + be32(data, pos + 4) > data.len() {
        Err(MidiError::UnexpectedEof)
    } else {
        Ok((pos + 8, pos + 8 + be32(data, pos + 4)))
    }
}

/// The tracks of the `count` chunks that follow each other from `pos` on, or
/// what is wrong with the first chunk that is not one.
pub open spec fn track_table(data: Seq<u8>, pos: int, count: nat) -> Result<
    Seq<TrackView>,
    MidiError,
>
    decreases count,
{
    if count == 0 {
        Ok(Seq::empty())
    } else {
        match chunk_at(data, pos) {
            Err(e) => Err(e),
            Ok((start, end)) => match track_table(data, end, (count - 1) as nat) {
                Ok(rest) => Ok(seq![fresh_track(start, end)] + rest),
                Err(e) => Err(e),
            },
        }
    }
}

/// What opening `data` gives: the reader at the start of every track, or why
/// `data` is no file.
pub open spec fn opened(data: Seq<u8>) -> Result<ReaderView, MidiError> {
    if data.len() < 14 {
        Err(MidiError::TooSmall)
    } else if be32(data, 0) != HEADER_SIGNATURE {
        Err(MidiError::HeaderMismatch)
    } else if be32(data, 4) != 6 {
        Err(MidiError::HeaderMismatch)
    } else {
        match track_table(data, 14, be16(data, 10) as nat) {
            Ok(tracks) => Ok(
                ReaderView {
                    data,
                    ticks_per_quarter: (be16(data, 12) % 0x8000) as u16,
                    tempo: DEFAULT_TEMPO,
                    tracks,
                },
            ),
            Err(e) => Err(e),
        }
    }
}

/// What a track must satisfy for its events to be read.
pub open spec fn track_ok(data: Seq<u8>, t: TrackView) -> bool {
    &&& 0 <= t.start <= t.pos <= t.end <= data.len()
    &&& t.end - t.start <= u32::MAX
    &&& 0 <= t.tick <= (t.pos - t.start) * 0x0FFF_FFFF
    &&& forall|k: int| 0 <= k < t.open.len() ==> (#[trigger] t.open[k]).1 <= t.tick
}

/// What a reader must satisfy for its events to be read.
pub open spec fn well_formed(r: ReaderView) -> bool {
    all_ok(r.data, r.tracks)
}

/// What reading one event of a track comes to.
#[verifier::ext_equal]
pub struct Decoded {
    /// The track after the event.
    pub track: TrackView,
    /// The tempo after the event.
    pub tempo: u32,
    /// The note that the event completed, if it completed one, or why the
    /// event could not be read.
    pub outcome: Result<Option<MidiEvent>, MidiError>,
}

/// How many bytes of the track are left to read.
pub open spec fn left(t: TrackView) -> int {
    t.end - t.pos
}

/// The track with `count` more bytes read.
pub open spec fn advanced(t: TrackView, count: int) -> TrackView {
    TrackView { pos: t.pos + count, ..t }
}

/// An event that the track ends in: the rest of the track is used up.
pub open spec fn cut_short(t: TrackView, tempo: u32) -> Decoded {
    Decoded { track: TrackView { pos: t.end, ..t }, tempo, outcome: Err(MidiError::UnexpectedEof) }
}

/// An event that was read and completes no note.
pub open spec fn passed(t: TrackView, tempo: u32) -> Decoded {
    Decoded { track: t, tempo, outcome: Ok(None) }
}

/// Milliseconds that `ticks` ticks take at `tempo` microseconds per quarter
/// note and `tpq` ticks per quarter note.
pub open spec fn ticks_to_ms(ticks: int, tempo: u32, tpq: u16) -> int {
    ticks * tempo / (tpq as int) / 1000
}

/// An instant in milliseconds, held to the range of a note's start.
pub open spec fn clamp_time(ms: int) -> u64 {
    if ms < 0 {
        0
    } else if ms > u64::MAX {
        u64::MAX
    } else {
        ms as u64
    }
}

/// A length in milliseconds, held to the range of a note's length.
pub open spec fn clamp_length(ms: int) -> u32 {
    if ms < 0 {
        0
    } else if ms > u32::MAX {
        u32::MAX
    } else {
        ms as u32
    }
}

/// The index, from `from` on, of the first open note with number `note`, or
/// the number of open notes where there is none.
pub open spec fn first_open(open: Seq<(u8, u64, u8)>, note: u8, from: int) -> int
    decreases open.len() - from,
{
    if from < 0 || from >= open.len() {
        open.len() as int
    } else if open[from].0 == note {
        from
    } else {
        first_open(open, note, from + 1)
    }
}

/// The note that a note-off for `note` at the track's tick completes: the
/// open note of that number that was switched on first, from its start to
/// now, with the velocity of its note-on. Where no such note is open, nothing
/// is completed. Where the file counts zero ticks to the quarter note, the
/// note is closed but cannot be timed: that is a `HeaderMismatch`.
pub open spec fn finish_note(t: TrackView, note: u8, tpq: u16, tempo: u32) -> Decoded {
    let i = first_open(t.open, note, 0);
    if i < t.open.len() {
        let since = t.open[i].1;
        Decoded {
            track: TrackView { open: t.open.remove(i), ..t },
            tempo,
            outcome: if tpq == 0 {
                Err(MidiError::HeaderMismatch)
            } else {
                Ok(
                    Some(
                        MidiEvent {
                            timestamp_ms: clamp_time(ticks_to_ms(since as int, tempo, tpq)),
                            note,
                            velocity: t.open[i].2,
                            duration_ms: clamp_length(ticks_to_ms(t.tick - since, tempo, tpq)),
                        },
                    ),
                )
            },
        }
    } else {
        passed(t, tempo)
    }
}

/// A note-on (`on`) or note-off, whose two data bytes are ahead: a note-on
/// of velocity zero counts as a note-off; any other opens the note at the
/// track's tick, with its velocity.
pub open spec fn note_event(data: Seq<u8>, t: TrackView, tpq: u16, tempo: u32, on: bool) -> Decoded {
    if left(t) < 2 {
        cut_short(t, tempo)
    } else {
        let note = data[t.pos];
        let velocity = data[t.pos + 1];
        let after = advanced(t, 2);
        if on && velocity != 0 {
            passed(
                TrackView { open: after.open.push((note, after.tick as u64, velocity)), ..after },
                tempo,
            )
        } else {
            finish_note(after, note, tpq, tempo)
        }
    }
}

/// An event that is stepped over: `count` bytes of data.
pub open spec fn skipped(t: TrackView, tempo: u32, count: int) -> Decoded {
    if count > left(t) {
        cut_short(t, tempo)
    } else {
        passed(advanced(t, count), tempo)
    }
}

/// What follows the length of a meta or system event: a set-tempo event
/// (type `0x51`, length three) gives the new tempo, any other payload is
/// stepped over.
pub open spec fn payload(data: Seq<u8>, t: TrackView, tempo: u32, sets_tempo: bool) -> Decoded {
    match vlq_at(data, t.pos, t.end) {
        None => Decoded {
            track: advanced(t, vlq_overrun(t.pos, t.end)),
            tempo,
            outcome: Err(MidiError::UnexpectedEof),
        },
        Some((len, width)) => {
            let after = advanced(t, width);
            if sets_tempo && len == 3 {
                if left(after) < 3 {
                    cut_short(after, tempo)
                } else {
                    passed(advanced(after, 3), be24(data, after.pos) as u32)
                }
            } else {
                skipped(after, tempo, len)
            }
        },
    }
}

/// A meta event (status `0xFF`: a type byte, a length, a payload) or another
/// system event (a length, a payload).
pub open spec fn system_event(data: Seq<u8>, t: TrackView, tempo: u32) -> Decoded {
    if t.running_status == 0xFF {
        if left(t) < 1 {
            cut_short(t, tempo)
        } else {
            payload(data, advanced(t, 1), tempo, data[t.pos] == 0x51)
        }
    } else {
        payload(data, t, tempo, false)
    }
}

/// The event whose status is the track's running status and whose data
/// bytes are ahead.
pub open spec fn event_body(data: Seq<u8>, t: TrackView, tpq: u16, tempo: u32) -> Decoded {
    let kind = t.running_status & 0xF0;
    if kind == 0x80 {
        note_event(data, t, tpq, tempo, false)
    } else if kind == 0x90 {
        note_event(data, t, tpq, tempo, true)
    } else if kind == 0xA0 || kind == 0xB0 || kind == 0xE0 {
        skipped(t, tempo, 2)
    } else if kind == 0xC0 || kind == 0xD0 {
        skipped(t, tempo, 1)
    } else if kind == 0xF0 {
        system_event(data, t, tempo)
    } else {
        Decoded { track: t, tempo, outcome: Err(MidiError::UnsupportedEvent(kind)) }
    }
}

/// The next event of a track: a delta time, which moves the track's tick; a
/// status byte, or none where the next byte is below `0x80` and the running
/// status stands in; and the event's data.
pub open spec fn decode_event(data: Seq<u8>, t: TrackView, tpq: u16, tempo: u32) -> Decoded {
    match vlq_at(data, t.pos, t.end) {
        None => Decoded {
            track: advanced(t, vlq_overrun(t.pos, t.end)),
            tempo,
            outcome: Err(MidiError::UnexpectedEof),
        },
        Some((delta, width)) => {
            let timed = TrackView { pos: t.pos + width, tick: t.tick + delta, ..t };
            if left(timed) < 1 {
                cut_short(timed, tempo)
            } else if data[timed.pos] < 0x80 {
                event_body(data, timed, tpq, tempo)
            } else {
                event_body(
                    data,
                    TrackView { pos: timed.pos + 1, running_status: data[timed.pos], ..timed },
                    tpq,
                    tempo,
                )
            }
        },
    }
}

/// Reading an event leaves a track fit for reading, never moves its cursor
/// or its tick back, and moves the cursor forward wherever a byte was left.
/// An event that is read without an error takes at least one byte behind its
/// delta time.
pub proof fn lemma_decode_progress(data: Seq<u8>, t: TrackView, tpq: u16, tempo: u32)
    requires
        track_ok(data, t),
    ensures
        track_ok(data, decode_event(data, t, tpq, tempo).track),
        decode_event(data, t, tpq, tempo).track.start == t.start,
        decode_event(data, t, tpq, tempo).track.end == t.end,
        t.pos <= decode_event(data, t, tpq, tempo).track.pos,
        t.pos < t.end ==> t.pos < decode_event(data, t, tpq, tempo).track.pos,
        t.tick <= decode_event(data, t, tpq, tempo).track.tick,
        due(data, t) matches Some(tick) ==> decode_event(data, t, tpq, tempo).track.tick == tick,
        decode_event(data, t, tpq, tempo).outcome is Ok ==> (vlq_at(data, t.pos, t.end) matches Some(
            (_, width),
        ) && t.pos + width + 1 <= decode_event(data, t, tpq, tempo).track.pos),
{
    lemma_vlq_range(data, t.pos, t.end);
    match vlq_at(data, t.pos, t.end) {
        None => {},
        Some((delta, width)) => {
            let timed = TrackView { pos: t.pos + width, tick: t.tick + delta, ..t };
            assert(track_ok(data, timed));
            if left(timed) < 1 {
            } else if data[timed.pos] < 0x80 {
                lemma_body_progress(data, timed, tpq, tempo);
            } else {
                let full = TrackView {
                    pos: timed.pos + 1,
                    running_status: data[timed.pos],
                    ..timed
                };
                assert(track_ok(data, full));
                lemma_body_progress(data, full, tpq, tempo);
            }
        },
    }
}

proof fn lemma_first_open(open: Seq<(u8, u64, u8)>, note: u8, from: int)
    requires
        0 <= from <= open.len(),
    ensures
        from <= first_open(open, note, from) <= open.len(),
        first_open(open, note, from) < open.len() ==> open[first_open(open, note, from)].0 == note,
        forall|k: int| from <= k < first_open(open, note, from) ==> (#[trigger] open[k]).0 != note,
    decreases open.len() - from,
{
    if from < open.len() && open[from].0 != note {
        lemma_first_open(open, note, from + 1);
    }
}

proof fn lemma_body_progress(data: Seq<u8>, t: TrackView, tpq: u16, tempo: u32)
    requires
        track_ok(data, t),
    ensures
        track_ok(data, event_body(data, t, tpq, tempo).track),
        event_body(data, t, tpq, tempo).track.start == t.start,
        event_body(data, t, tpq, tempo).track.end == t.end,
        event_body(data, t, tpq, tempo).track.tick == t.tick,
        t.pos <= event_body(data, t, tpq, tempo).track.pos,
        event_body(data, t, tpq, tempo).outcome is Ok ==> t.pos + 1 <= event_body(
            data,
            t,
            tpq,
            tempo,
        ).track.pos,
{
    let kind = t.running_status & 0xF0;
    if kind == 0x80 || kind == 0x90 {
        if left(t) >= 2 {
            let after = advanced(t, 2);
            lemma_first_open(after.open, data[t.pos], 0);
        }
    } else if kind == 0xF0 {
        if t.running_status == 0xFF {
            if left(t) >= 1 {
                lemma_payload_progress(data, advanced(t, 1), tempo, data[t.pos] == 0x51);
            }
        } else {
            lemma_payload_progress(data, t, tempo, false);
        }
    }
}

proof fn lemma_payload_progress(data: Seq<u8>, t: TrackView, tempo: u32, sets_tempo: bool)
    requires
        track_ok(data, t),
    ensures
        track_ok(data, payload(data, t, tempo, sets_tempo).track),
        payload(data, t, tempo, sets_tempo).track.start == t.start,
        payload(data, t, tempo, sets_tempo).track.end == t.end,
        payload(data, t, tempo, sets_tempo).track.tick == t.tick,
        t.pos <= payload(data, t, tempo, sets_tempo).track.pos,
        payload(data, t, tempo, sets_tempo).outcome is Ok ==> t.pos + 1 <= payload(
            data,
            t,
            tempo,
            sets_tempo,
        ).track.pos,
{
    lemma_vlq_range(data, t.pos, t.end);
}

/// Whether the track has bytes left to read.
pub open spec fn live(t: TrackView) -> bool {
    t.pos < t.end
}

/// The tick at which the next event of the track is due, where its delta
/// time can be read.
pub open spec fn due(data: Seq<u8>, t: TrackView) -> Option<int> {
    match vlq_at(data, t.pos, t.end) {
        Some((delta, _)) => Some(t.tick + delta),
        None => None,
    }
}

/// The track to read next, among the first `n`.
///
/// The tracks that have bytes left are looked at in order. The first whose
/// delta time cannot be read is the one; where all can be read, it is the one
/// whose event is due first, and of several due at the same tick the first.
pub open spec fn pick_among(data: Seq<u8>, tracks: Seq<TrackView>, n: int) -> Option<int>
    decreases n,
{
    if n <= 0 {
        None
    } else {
        let before = pick_among(data, tracks, n - 1);
        let t = tracks[n - 1];
        if before is Some && due(data, tracks[before->0]) is None {
            before
        } else if !live(t) {
            before
        } else if due(data, t) is None {
            Some(n - 1)
        } else if before is Some && due(data, tracks[before->0])->0 <= due(data, t)->0 {
            before
        } else {
            Some(n - 1)
        }
    }
}

/// The track to read next, or none when every track is read to its end.
pub open spec fn pick(r: ReaderView) -> Option<int> {
    pick_among(r.data, r.tracks, r.tracks.len() as int)
}

/// The reader after the next event of track `idx` is read, and what the
/// event gave.
pub open spec fn step_on(r: ReaderView, idx: int) -> (
    ReaderView,
    Result<Option<MidiEvent>, MidiError>,
) {
    let d = decode_event(r.data, r.tracks[idx], r.ticks_per_quarter, r.tempo);
    (ReaderView { tempo: d.tempo, tracks: r.tracks.update(idx, d.track), ..r }, d.outcome)
}

/// One step of the merge: the next event of the track that [`pick`] names.
pub open spec fn next_step(r: ReaderView) -> (ReaderView, Result<Option<MidiEvent>, MidiError>) {
    match pick(r) {
        Some(idx) => step_on(r, idx),
        None => (r, Ok(None)),
    }
}

/// Whether every track is read to its end.
pub open spec fn exhausted(r: ReaderView) -> bool {
    forall|i: int| 0 <= i < r.tracks.len() ==> !live(#[trigger] r.tracks[i])
}

/// The number of bytes that are left to read, over all tracks.
pub open spec fn unread(tracks: Seq<TrackView>) -> int
    decreases tracks.len(),
{
    if tracks.len() == 0 {
        0
    } else {
        unread(tracks.drop_last()) + left(tracks.last())
    }
}

/// The reader after the steps up to the next completed note, and that note;
/// steps that complete no note or fail are passed over. No note when the
/// tracks are exhausted first.
pub open spec fn next_emitted(r: ReaderView) -> (ReaderView, Option<MidiEvent>)
    decreases unread(r.tracks),
    when well_formed(r)
    via next_emitted_decreases
{
    let (after, outcome) = next_step(r);
    match outcome {
        Ok(Some(event)) => (after, Some(event)),
        _ => if exhausted(after) {
            (after, None)
        } else {
            next_emitted(after)
        },
    }
}

#[via_fn]
proof fn next_emitted_decreases(r: ReaderView) {
    lemma_step_progress(r);
}

/// The notes that the reader still holds, in the order in which the merge
/// completes them.
pub open spec fn all_events(r: ReaderView) -> Seq<MidiEvent>
    decreases unread(r.tracks),
    when well_formed(r)
    via all_events_decreases
{
    let (after, emitted) = next_emitted(r);
    match emitted {
        Some(event) => seq![event] + all_events(after),
        None => Seq::empty(),
    }
}

#[via_fn]
proof fn all_events_decreases(r: ReaderView) {
    lemma_emitted_progress(r);
}

proof fn lemma_unread_update(data: Seq<u8>, tracks: Seq<TrackView>, idx: int, t: TrackView)
    requires
        0 <= idx < tracks.len(),
    ensures
        unread(tracks.update(idx, t)) == unread(tracks) - left(tracks[idx]) + left(t),
    decreases tracks.len(),
{
    let updated = tracks.update(idx, t);
    if idx == tracks.len() - 1 {
        assert(updated.drop_last() =~= tracks.drop_last());
    } else {
        lemma_unread_update(data, tracks.drop_last(), idx, t);
        assert(updated.drop_last() =~= tracks.drop_last().update(idx, t));
    }
}

proof fn lemma_unread_zero(data: Seq<u8>, tracks: Seq<TrackView>)
    requires
        all_ok(data, tracks),
    ensures
        unread(tracks) >= 0,
        unread(tracks) == 0 <==> (forall|i: int|
            0 <= i < tracks.len() ==> !live(#[trigger] tracks[i])),
    decreases tracks.len(),
{
    if tracks.len() > 0 {
        let head = tracks.drop_last();
        assert forall|i: int| 0 <= i < head.len() implies track_ok(data, #[trigger] head[i]) by {
            assert(head[i] == tracks[i]);
        }
        lemma_unread_zero(data, head);
        assert(track_ok(data, tracks.last()));
        if unread(tracks) == 0 {
            assert forall|i: int| 0 <= i < tracks.len() implies !live(#[trigger] tracks[i]) by {
                if i < head.len() {
                    assert(head[i] == tracks[i]);
                }
            }
        }
        if forall|i: int| 0 <= i < tracks.len() ==> !live(#[trigger] tracks[i]) {
            assert forall|i: int| 0 <= i < head.len() implies !live(#[trigger] head[i]) by {
                assert(head[i] == tracks[i]);
            }
            assert(!live(tracks[tracks.len() - 1]));
        }
    }
}

/// What the choice of the next track amounts to.
///
/// No track is chosen only when none has bytes left. A chosen track has
/// bytes left. If its delta time can be read, so can that of every track with
/// bytes left, no event is due before its event, and every event of a track
/// before it is due later. If its delta time cannot be read, that of every
/// track before it with bytes left can.
pub proof fn lemma_pick(data: Seq<u8>, tracks: Seq<TrackView>, n: int)
    requires
        0 <= n <= tracks.len(),
    ensures
        match pick_among(data, tracks, n) {
            None => forall|j: int| 0 <= j < n ==> !live(#[trigger] tracks[j]),
            Some(i) => {
                &&& 0 <= i < n
                &&& live(tracks[i])
                &&& due(data, tracks[i]) is None ==> forall|j: int|
                    0 <= j < i && live(#[trigger] tracks[j]) ==> due(data, tracks[j]) is Some
                &&& due(data, tracks[i]) is Some ==> forall|j: int|
                    0 <= j < n && live(#[trigger] tracks[j]) ==> {
                        &&& due(data, tracks[j]) is Some
                        &&& due(data, tracks[i])->0 <= due(data, tracks[j])->0
                        &&& j < i ==> due(data, tracks[i])->0 < due(data, tracks[j])->0
                    }
            },
        },
    decreases n,
{
    if n > 0 {
        lemma_pick(data, tracks, n - 1);
    }
}

proof fn lemma_pick_sticks(data: Seq<u8>, tracks: Seq<TrackView>, n: int, m: int)
    requires
        0 <= n <= m,
        pick_among(data, tracks, n) matches Some(i) && due(data, tracks[i]) is None,
    ensures
        pick_among(data, tracks, m) == pick_among(data, tracks, n),
    decreases m - n,
{
    if n < m {
        lemma_pick_sticks(data, tracks, n, m - 1);
    }
}

/// One step of the merge leaves the reader fit for reading and changes
/// nothing but the tempo and the track that was read. Unless every track is
/// exhausted, that track's cursor moves forward: no place of a track is read
/// from twice.
pub proof fn lemma_step_progress(r: ReaderView)
    requires
        well_formed(r),
    ensures
        well_formed(next_step(r).0),
        next_step(r).0.data == r.data,
        next_step(r).0.ticks_per_quarter == r.ticks_per_quarter,
        next_step(r).0.tracks.len() == r.tracks.len(),
        0 <= unread(next_step(r).0.tracks) <= unread(r.tracks),
        pick(r) is None <==> exhausted(r),
        pick(r) is None ==> next_step(r) == (r, Ok::<Option<MidiEvent>, MidiError>(None)),
        pick(r) matches Some(i) ==> {
            &&& 0 <= i < r.tracks.len()
            &&& unread(next_step(r).0.tracks) < unread(r.tracks)
            &&& r.tracks[i].pos < next_step(r).0.tracks[i].pos
            &&& forall|j: int|
                0 <= j < r.tracks.len() && j != i ==> #[trigger] next_step(r).0.tracks[j]
                    == r.tracks[j]
        },
{
    lemma_pick(r.data, r.tracks, r.tracks.len() as int);
    lemma_unread_zero(r.data, r.tracks);
    match pick(r) {
        None => {},
        Some(i) => {
            let after = next_step(r).0;
            lemma_decode_progress(r.data, r.tracks[i], r.ticks_per_quarter, r.tempo);
            lemma_unread_update(r.data, r.tracks, i, after.tracks[i]);
            assert forall|j: int| 0 <= j < after.tracks.len() implies track_ok(
                after.data,
                #[trigger] after.tracks[j],
            ) by {
                if j != i {
                    assert(after.tracks[j] == r.tracks[j]);
                }
            }
            lemma_unread_zero(after.data, after.tracks);
        },
    }
}

/// The merge is in order of time: the event of one step is due no later than
/// the event of the step after it, as far as the delta times can be read.
pub proof fn lemma_merge_in_order(r: ReaderView)
    requires
        well_formed(r),
        pick(r) matches Some(i) && due(r.data, r.tracks[i]) is Some,
        pick(next_step(r).0) matches Some(j) && due(r.data, next_step(r).0.tracks[j]) is Some,
    ensures
        due(r.data, r.tracks[pick(r)->0])->0 <= due(
            r.data,
            next_step(r).0.tracks[pick(next_step(r).0)->0],
        )->0,
{
    let i = pick(r)->0;
    let after = next_step(r).0;
    let j = pick(after)->0;
    lemma_step_progress(r);
    lemma_pick(r.data, r.tracks, r.tracks.len() as int);
    lemma_pick(after.data, after.tracks, after.tracks.len() as int);
    if j == i {
        lemma_decode_progress(r.data, r.tracks[i], r.ticks_per_quarter, r.tempo);
        lemma_vlq_range(after.data, after.tracks[j].pos, after.tracks[j].end);
    } else {
        assert(after.tracks[j] == r.tracks[j]);
    }
}

/// Reading up to the next completed note leaves the reader fit for reading;
/// where a note is completed, bytes were read.
pub proof fn lemma_emitted_progress(r: ReaderView)
    requires
        well_formed(r),
    ensures
        well_formed(next_emitted(r).0),
        next_emitted(r).0.data == r.data,
        next_emitted(r).0.ticks_per_quarter == r.ticks_per_quarter,
        next_emitted(r).0.tracks.len() == r.tracks.len(),
        0 <= unread(next_emitted(r).0.tracks) <= unread(r.tracks),
        next_emitted(r).1 is Some ==> unread(next_emitted(r).0.tracks) < unread(r.tracks),
        next_emitted(r).1 is None ==> exhausted(next_emitted(r).0),
    decreases unread(r.tracks),
{
    lemma_step_progress(r);
    let (after, outcome) = next_step(r);
    match outcome {
        Ok(Some(event)) => {},
        _ => {
            if !exhausted(after) {
                lemma_emitted_progress(after);
            }
        },
    }
}

/// The place of the next unread byte in a window of a file's bytes.
#[derive(Debug, Clone, Copy)]
struct Cursor {
    pos: usize,
    end: usize,
}

impl Cursor {
    /// Whether the cursor lies in its window and the window in `data`.
    spec fn within(&self, data: Seq<u8>) -> bool {
        self.pos <= self.end <= data.len()
    }

    /// How many bytes are left to read.
    spec fn left(&self) -> int {
        self.end - self.pos
    }

    fn new(pos: usize, end: usize) -> (c: Self)
        ensures
            c.pos == pos,
            c.end == end,
    {
        Cursor { pos, end }
    }

    /// Reads one byte and steps over it.
    fn read_u8(&mut self, data: &[u8]) -> (r: Result<u8, MidiError>)
        requires
            old(self).within(data@),
        ensures
            final(self).end == old(self).end,
            old(self).left() >= 1 ==> r == Ok::<u8, MidiError>(data@[old(self).pos as int])
                && final(self).pos == old(self).pos + 1,
            old(self).left() < 1 ==> r == Err::<u8, MidiError>(MidiError::UnexpectedEof)
                && final(self).pos == old(self).end,
    {
        if self.pos >= self.end {
            return Err(MidiError::UnexpectedEof);
        }
        let b = data[self.pos];
        self.pos = self.pos + 1;
        Ok(b)
    }

    /// Reads a big-endian number of two bytes.
    fn read_u16(&mut self, data: &[u8]) -> (r: Result<u16, MidiError>)
        requires
            old(self).within(data@),
        ensures
            final(self).end == old(self).end,
            old(self).left() >= 2 ==> (r matches Ok(v) && v == be16(data@, old(self).pos as int))
                && final(self).pos == old(self).pos + 2,
            old(self).left() < 2 ==> r == Err::<u16, MidiError>(MidiError::UnexpectedEof)
                && final(self).pos == old(self).end,
    {
        let hi = self.read_u8(data)?;
        let lo = self.read_u8(data)?;
        assert((((hi as u16) << 8) | (lo as u16)) == hi * 0x100 + lo) by (bit_vector);
        Ok(((hi as u16) << 8) | (lo as u16))
    }

    /// Reads a big-endian number of three bytes.
    fn read_u24(&mut self, data: &[u8]) -> (r: Result<u32, MidiError>)
        requires
            old(self).within(data@),
        ensures
            final(self).end == old(self).end,
            old(self).left() >= 3 ==> (r matches Ok(v) && v == be24(data@, old(self).pos as int))
                && final(self).pos == old(self).pos + 3,
            old(self).left() < 3 ==> r == Err::<u32, MidiError>(MidiError::UnexpectedEof)
                && final(self).pos == old(self).end,
    {
        let a = self.read_u8(data)?;
        let b = self.read_u8(data)?;
        let c = self.read_u8(data)?;
        assert((((a as u32) << 16) | ((b as u32) << 8) | (c as u32)) == (a * 0x100 + b) * 0x100
            + c) by (bit_vector);
        Ok(((a as u32) << 16) | ((b as u32) << 8) | (c as u32))
    }

    /// Reads a big-endian number of four bytes.
    fn read_u32(&mut self, data: &[u8]) -> (r: Result<u32, MidiError>)
        requires
            old(self).within(data@),
        ensures
            final(self).end == old(self).end,
            old(self).left() >= 4 ==> (r matches Ok(v) && v == be32(data@, old(self).pos as int))
                && final(self).pos == old(self).pos + 4,
            old(self).left() < 4 ==> r == Err::<u32, MidiError>(MidiError::UnexpectedEof)
                && final(self).pos == old(self).end,
    {
        let a = self.read_u8(data)?;
        let b = self.read_u8(data)?;
        let c = self.read_u8(data)?;
        let d = self.read_u8(data)?;
        assert((((a as u32) << 24) | ((b as u32) << 16) | ((c as u32) << 8) | (d as u32)) == ((a
            * 0x100 + b) * 0x100 + c) * 0x100 + d) by (bit_vector);
        Ok(((a as u32) << 24) | ((b as u32) << 16) | ((c as u32) << 8) | (d as u32))
    }

    /// Reads a variable-length quantity and steps over it. A failed read
    /// steps over the bytes it looked at.
    fn read_vlq(&mut self, data: &[u8]) -> (r: Result<u32, MidiError>)
        requires
            old(self).within(data@),
        ensures
            final(self).end == old(self).end,
            final(self).within(data@),
            match vlq_at(data@, old(self).pos as int, old(self).end as int) {
                Some((value, width)) => r == Ok::<u32, MidiError>(value as u32) && final(self).pos
                    == old(self).pos + width && 0 <= value <= VLQ_MAX && 1 <= width <= 4,
                None => r == Err::<u32, MidiError>(MidiError::UnexpectedEof) && final(self).pos
                    == old(self).pos + vlq_overrun(old(self).pos as int, old(self).end as int),
            },
    {
        match decode_vlq_in(data, self.pos, self.end) {
            Ok((value, width)) => {
                self.pos = self.pos + width;
                Ok(value)
            },
            Err(e) => {
                if self.end - self.pos < 4 {
                    self.pos = self.end;
                } else {
                    self.pos = self.pos + 4;
                }
                Err(e)
            },
        }
    }

    /// Reads the variable-length quantity ahead without stepping over it.
    fn peek_vlq(&self, data: &[u8]) -> (r: Result<u32, MidiError>)
        requires
            self.within(data@),
        ensures
            match vlq_at(data@, self.pos as int, self.end as int) {
                Some((value, _)) => r == Ok::<u32, MidiError>(value as u32) && 0 <= value
                    <= VLQ_MAX,
                None => r == Err::<u32, MidiError>(MidiError::UnexpectedEof),
            },
    {
        match decode_vlq_in(data, self.pos, self.end) {
            Ok((value, _)) => Ok(value),
            Err(e) => Err(e),
        }
    }

    /// Steps over `count` bytes, or to the end of the window where fewer are left.
    fn skip(&mut self, count: u32) -> (r: Result<(), MidiError>)
        requires
            old(self).pos <= old(self).end,
        ensures
            final(self).end == old(self).end,
            count <= old(self).left() ==> r == Ok::<(), MidiError>(()) && final(self).pos == old(
                self,
            ).pos + count,
            count > old(self).left() ==> r == Err::<(), MidiError>(MidiError::UnexpectedEof)
                && final(self).pos == old(self).end,
    {
        if count as usize > self.end - self.pos {
            self.pos = self.end;
            return Err(MidiError::UnexpectedEof);
        }
        self.pos = self.pos + count as usize;
        Ok(())
    }
}

/// One track while its events are read.
#[derive(Debug)]
struct TrackState {
    start: usize,
    cursor: Cursor,
    absolute_tick: u64,
    running_status: u8,
    active_notes: Vec<(u8, u64, u8)>,
}

impl View for TrackState {
    type V = TrackView;

    closed spec fn view(&self) -> TrackView {
        TrackView {
            start: self.start as int,
            pos: self.cursor.pos as int,
            end: self.cursor.end as int,
            tick: self.absolute_tick as int,
            running_status: self.running_status,
            open: self.active_notes@,
        }
    }
}

/// A Standard MIDI File that is being read: its timing and one cursor for
/// each of its tracks.
#[derive(Debug)]
pub struct MidiReader {
    data: Vec<u8>,
    ticks_per_quarter: u16,
    tempo_us_per_quarter: u32,
    tracks: Vec<TrackState>,
}

impl View for MidiReader {
    type V = ReaderView;

    closed spec fn view(&self) -> ReaderView {
        ReaderView {
            data: self.data@,
            ticks_per_quarter: self.ticks_per_quarter,
            tempo: self.tempo_us_per_quarter,
            tracks: views_of(self.tracks@),
        }
    }
}

/// Milliseconds that `ticks` ticks take.
fn convert_ticks(ticks: u64, tempo: u32, tpq: u16) -> (ms: u128)
    requires
        tpq > 0,
    ensures
        ms == ticks_to_ms(ticks as int, tempo, tpq),
{
    assert(ticks * tempo <= 0xFFFF_FFFF_FFFF_FFFF * 0xFFFF_FFFF) by (nonlinear_arith)
        requires
            0 <= ticks <= 0xFFFF_FFFF_FFFF_FFFF,
            0 <= tempo <= 0xFFFF_FFFF,
    ;
    let product: u128 = (ticks as u128) * (tempo as u128);
    product / (tpq as u128) / 1000
}

/// The start of a note, `ms` milliseconds in, or the latest there is.
fn time_of(ms: u128) -> (time: u64)
    ensures
        time == clamp_time(ms as int),
{
    if ms > u64::MAX as u128 {
        u64::MAX
    } else {
        ms as u64
    }
}

/// The length of a note of `ms` milliseconds, or the longest there is.
fn length_of(ms: u128) -> (length: u32)
    ensures
        length == clamp_length(ms as int),
{
    if ms > u32::MAX as u128 {
        u32::MAX
    } else {
        ms as u32
    }
}

impl TrackState {
    /// Whether the cursor lies in the track and no open note starts after the
    /// track's tick.
    spec fn sound(&self, data: Seq<u8>) -> bool {
        &&& self.cursor.within(data)
        &&& forall|k: int|
            0 <= k < self.active_notes@.len() ==> (#[trigger] self.active_notes@[k]).1
                <= self.absolute_tick
    }

    /// Completes the open note of number `note` that was switched on first.
    fn finish_note(&mut self, note: u8, tpq: u16, tempo: u32) -> (r: Result<
        Option<MidiEvent>,
        MidiError,
    >)
        requires
            forall|k: int|
                0 <= k < old(self).active_notes@.len() ==> (#[trigger] old(
                    self,
                ).active_notes@[k]).1 <= old(self).absolute_tick,
        ensures
            final(self)@ == finish_note(old(self)@, note, tpq, tempo).track,
            r == finish_note(old(self)@, note, tpq, tempo).outcome,
    {
        let mut i: usize = 0;
        while i < self.active_notes.len()
            invariant
                i <= self.active_notes@.len(),
                *self == *old(self),
                forall|k: int|
                    0 <= k < self.active_notes@.len() ==> (#[trigger] self.active_notes@[k]).1
                        <= self.absolute_tick,
                first_open(self.active_notes@, note, 0) == first_open(
                    self.active_notes@,
                    note,
                    i as int,
                ),
            decreases self.active_notes@.len() - i,
        {
            if self.active_notes[i].0 == note {
                let (_, since, velocity) = self.active_notes.remove(i);
                assert(self@ =~= finish_note(old(self)@, note, tpq, tempo).track);
                if tpq == 0 {
                    return Err(MidiError::HeaderMismatch);
                }
                let length = self.absolute_tick - since;
                let event = MidiEvent {
                    timestamp_ms: time_of(convert_ticks(since, tempo, tpq)),
                    note,
                    velocity,
                    duration_ms: length_of(convert_ticks(length, tempo, tpq)),
                };
                return Ok(Some(event));
            }
            i = i + 1;
        }
        Ok(None)
    }

    /// A note-on or a note-off: reads the note and the velocity.
    fn note_event(&mut self, data: &[u8], tpq: u16, tempo: u32, on: bool) -> (r: Result<
        Option<MidiEvent>,
        MidiError,
    >)
        requires
            old(self).sound(data@),
        ensures
            final(self)@ == note_event(data@, old(self)@, tpq, tempo, on).track,
            r == note_event(data@, old(self)@, tpq, tempo, on).outcome,
    {
        let note = self.cursor.read_u8(data)?;
        let velocity = self.cursor.read_u8(data)?;
        if on && velocity != 0 {
            self.active_notes.push((note, self.absolute_tick, velocity));
            assert(self@ =~= note_event(data@, old(self)@, tpq, tempo, on).track);
            return Ok(None);
        }
        self.finish_note(note, tpq, tempo)
    }

    /// Steps over the `count` data bytes of an event that is not interpreted.
    fn skip_event(&mut self, count: u32) -> (r: Result<Option<MidiEvent>, MidiError>)
        requires
            old(self).cursor.pos <= old(self).cursor.end,
        ensures
            forall|tempo: u32|
                final(self)@ == (#[trigger] skipped(old(self)@, tempo, count as int)).track && r
                    == skipped(old(self)@, tempo, count as int).outcome,
    {
        self.cursor.skip(count)?;
        Ok(None)
    }

    /// Reads the length and the payload of a meta or system event.
    fn payload(&mut self, data: &[u8], tempo: &mut u32, sets_tempo: bool) -> (r: Result<
        Option<MidiEvent>,
        MidiError,
    >)
        requires
            old(self).cursor.within(data@),
        ensures
            final(self)@ == payload(data@, old(self)@, *old(tempo), sets_tempo).track,
            *final(tempo) == payload(data@, old(self)@, *old(tempo), sets_tempo).tempo,
            r == payload(data@, old(self)@, *old(tempo), sets_tempo).outcome,
    {
        let len = self.cursor.read_vlq(data)?;
        if sets_tempo && len == 3 {
            let micros = self.cursor.read_u24(data)?;
            *tempo = micros;
            Ok(None)
        } else {
            self.skip_event(len)
        }
    }

    /// A meta or system event.
    fn system_event(&mut self, data: &[u8], status: u8, tempo: &mut u32) -> (r: Result<
        Option<MidiEvent>,
        MidiError,
    >)
        requires
            old(self).cursor.within(data@),
            status == old(self).running_status,
        ensures
            final(self)@ == system_event(data@, old(self)@, *old(tempo)).track,
            *final(tempo) == system_event(data@, old(self)@, *old(tempo)).tempo,
            r == system_event(data@, old(self)@, *old(tempo)).outcome,
    {
        if status == 0xFF {
            let meta = self.cursor.read_u8(data)?;
            self.payload(data, tempo, meta == 0x51)
        } else {
            self.payload(data, tempo, false)
        }
    }

    /// The tick at which the next event of the track is due: nothing where
    /// the track is read to its end, an error where the delta time cannot be
    /// read.
    fn peek_due(&self, data: &[u8]) -> (r: Option<Result<u64, MidiError>>)
        requires
            track_ok(data@, self@),
        ensures
            r is None <==> !live(self@),
            r matches Some(Ok(tick)) ==> due(data@, self@) == Some(tick as int),
            r matches Some(Err(_)) ==> due(data@, self@) is None,
    {
        if self.cursor.pos >= self.cursor.end {
            return None;
        }
        match self.cursor.peek_vlq(data) {
            Ok(delta) => Some(Ok(self.absolute_tick + delta as u64)),
            Err(e) => Some(Err(e)),
        }
    }

    /// Reads the next event of the track.
    fn parse_event(&mut self, data: &[u8], tpq: u16, tempo: &mut u32) -> (r: Result<
        Option<MidiEvent>,
        MidiError,
    >)
        requires
            track_ok(data@, old(self)@),
        ensures
            final(self)@ == decode_event(data@, old(self)@, tpq, *old(tempo)).track,
            *final(tempo) == decode_event(data@, old(self)@, tpq, *old(tempo)).tempo,
            r == decode_event(data@, old(self)@, tpq, *old(tempo)).outcome,
            track_ok(data@, final(self)@),
    {
        proof {
            lemma_decode_progress(data@, self@, tpq, *tempo);
            lemma_vlq_range(data@, self.cursor.pos as int, self.cursor.end as int);
        }
        let delta = self.cursor.read_vlq(data)?;
        self.absolute_tick = self.absolute_tick + delta as u64;
        let mut status = self.cursor.read_u8(data)?;
        if status < 0x80 {
            self.cursor.pos = self.cursor.pos - 1;
            status = self.running_status;
        } else {
            self.running_status = status;
        }
        let kind = status & 0xF0;
        if kind == 0x80 {
            self.note_event(data, tpq, *tempo, false)
        } else if kind == 0x90 {
            self.note_event(data, tpq, *tempo, true)
        } else if kind == 0xA0 || kind == 0xB0 || kind == 0xE0 {
            self.skip_event(2)
        } else if kind == 0xC0 || kind == 0xD0 {
            self.skip_event(1)
        } else if kind == 0xF0 {
            self.system_event(data, status, tempo)
        } else {
            Err(MidiError::UnsupportedEvent(kind))
        }
    }
}

/// The tracks as the contracts see them.
spec fn views_of(tracks: Seq<TrackState>) -> Seq<TrackView> {
    Seq::new(tracks.len(), |i: int| tracks[i]@)
}

/// Whether every track is fit for reading.
pub open spec fn all_ok(data: Seq<u8>, tracks: Seq<TrackView>) -> bool {
    forall|i: int| 0 <= i < tracks.len() ==> track_ok(data, #[trigger] tracks[i])
}

/// The tracks read so far, followed by those still to come.
spec fn prepend(views: Seq<TrackView>, tail: Result<Seq<TrackView>, MidiError>) -> Result<
    Seq<TrackView>,
    MidiError,
> {
    match tail {
        Ok(rest) => Ok(views + rest),
        Err(e) => Err(e),
    }
}

proof fn lemma_prepend_nothing(table: Result<Seq<TrackView>, MidiError>)
    ensures
        prepend(Seq::empty(), table) == table,
        table matches Ok(views) ==> prepend(views, Ok(Seq::empty())) == table,
{
    match table {
        Ok(views) => {
            assert(Seq::<TrackView>::empty() + views =~= views);
            assert(views + Seq::<TrackView>::empty() =~= views);
        },
        Err(e) => {},
    }
}

proof fn lemma_table_step(data: Seq<u8>, pos: int, count: nat, views: Seq<TrackView>)
    requires
        count > 0,
    ensures
        match chunk_at(data, pos) {
            Ok((start, end)) => prepend(views, track_table(data, pos, count)) == prepend(
                views.push(fresh_track(start, end)),
                track_table(data, end, (count - 1) as nat),
            ),
            Err(e) => prepend(views, track_table(data, pos, count)) == Err::<
                Seq<TrackView>,
                MidiError,
            >(e),
        },
{
    match chunk_at(data, pos) {
        Ok((start, end)) => {
            match track_table(data, end, (count - 1) as nat) {
                Ok(rest) => {
                    assert(views + (seq![fresh_track(start, end)] + rest) =~= views.push(
                        fresh_track(start, end),
                    ) + rest);
                },
                Err(e) => {},
            }
        },
        Err(e) => {},
    }
}

proof fn lemma_views_push(data: Seq<u8>, tracks: Seq<TrackState>, track: TrackState)
    requires
        all_ok(data, views_of(tracks)),
        track_ok(data, track@),
    ensures
        views_of(tracks.push(track)) == views_of(tracks).push(track@),
        all_ok(data, views_of(tracks.push(track))),
{
    assert(views_of(tracks.push(track)) =~= views_of(tracks).push(track@));
    assert forall|i: int| 0 <= i < views_of(tracks.push(track)).len() implies track_ok(
        data,
        #[trigger] views_of(tracks.push(track))[i],
    ) by {
        if i < tracks.len() {
            assert(views_of(tracks.push(track))[i] == views_of(tracks)[i]);
        }
    }
}

impl MidiReader {
    /// Whether the reader is fit for reading events: every reader that
    /// [`MidiReader::new`] returns is, and reading keeps it so.
    pub open spec fn wf(&self) -> bool {
        well_formed(self@)
    }

    /// Reads the head of the track chunk at the cursor and steps over the
    /// whole chunk.
    fn read_chunk(c: &mut Cursor, data: &[u8]) -> (r: Result<TrackState, MidiError>)
        requires
            old(c).within(data@),
            old(c).end == data@.len(),
        ensures
            final(c).within(data@),
            final(c).end == old(c).end,
            match chunk_at(data@, old(c).pos as int) {
                Ok((start, end)) => r matches Ok(track) && track@ == fresh_track(start, end)
                    && track_ok(data@, track@) && final(c).pos == end,
                Err(e) => r matches Err(e2) && e2 == e,
            },
    {
        let signature = c.read_u32(data)?;
        if signature != TRACK_SIGNATURE {
            return Err(MidiError::HeaderMismatch);
        }
        let len = c.read_u32(data)?;
        if len as usize > c.end - c.pos {
            return Err(MidiError::UnexpectedEof);
        }
        let start = c.pos;
        let end = start + len as usize;
        c.pos = end;
        Ok(
            TrackState {
                start,
                cursor: Cursor::new(start, end),
                absolute_tick: 0,
                running_status: 0,
                active_notes: Vec::new(),
            },
        )
    }

    /// Opens a file: checks the header and the chunk of every track that the
    /// header counts, and puts a cursor at the start of each track.
    ///
    /// Fails with `TooSmall` on fewer than fourteen bytes; with
    /// `HeaderMismatch` where the file signature, the header length of six or
    /// a track signature is not there; with `UnexpectedEof` where the file
    /// ends inside a track's chunk. The format and the division are read and
    /// not checked.
    pub fn new(data: &[u8]) -> (r: Result<MidiReader, MidiError>)
        ensures
            match opened(data@) {
                Ok(v) => r matches Ok(reader) && reader@ == v && reader.wf(),
                Err(e) => r matches Err(e2) && e2 == e,
            },
    {
        if data.len() < 14 {
            return Err(MidiError::TooSmall);
        }
        let mut c = Cursor::new(0, data.len());
        let signature = match c.read_u32(data) {
            Ok(v) => v,
            Err(e) => {
                return Err(e);
            },
        };
        if signature != HEADER_SIGNATURE {
            return Err(MidiError::HeaderMismatch);
        }
        let header_len = match c.read_u32(data) {
            Ok(v) => v,
            Err(e) => {
                return Err(e);
            },
        };
        if header_len != 6 {
            return Err(MidiError::HeaderMismatch);
        }
        let _format = match c.read_u16(data) {
            Ok(v) => v,
            Err(e) => {
                return Err(e);
            },
        };
        let num_tracks = match c.read_u16(data) {
            Ok(v) => v,
            Err(e) => {
                return Err(e);
            },
        };
        let division = match c.read_u16(data) {
            Ok(v) => v,
            Err(e) => {
                return Err(e);
            },
        };
        let ticks_per_quarter = division & 0x7FFF;
        assert(division & 0x7FFF == division % 0x8000) by (bit_vector);
        let mut tracks: Vec<TrackState> = Vec::new();
        let mut i: u16 = 0;
        let ghost whole = track_table(data@, 14, num_tracks as nat);
        proof {
            lemma_prepend_nothing(whole);
            assert(views_of(tracks@) =~= Seq::<TrackView>::empty());
        }
        while i < num_tracks
            invariant
                i <= num_tracks,
                c.within(data@),
                c.end == data@.len(),
                all_ok(data@, views_of(tracks@)),
                whole matches Err(e) ==> opened(data@) == Err::<ReaderView, MidiError>(e),
                whole == prepend(
                    views_of(tracks@),
                    track_table(data@, c.pos as int, (num_tracks - i) as nat),
                ),
            decreases num_tracks - i,
        {
            let ghost here = c.pos as int;
            let ghost before = tracks@;
            proof {
                lemma_table_step(data@, here, (num_tracks - i) as nat, views_of(before));
            }
            let track = match Self::read_chunk(&mut c, data) {
                Ok(track) => track,
                Err(e) => {
                    return Err(e);
                },
            };
            proof {
                lemma_views_push(data@, before, track);
            }
            tracks.push(track);
            i = i + 1;
        }
        let reader = MidiReader {
            data: vstd::slice::slice_to_vec(data),
            ticks_per_quarter,
            tempo_us_per_quarter: DEFAULT_TEMPO,
            tracks,
        };
        proof {
            lemma_prepend_nothing(Ok::<Seq<TrackView>, MidiError>(views_of(tracks@)));
            assert(reader@.tracks == views_of(reader.tracks@));
        }
        Ok(reader)
    }

    /// Reads the next event, in order of time over all tracks.
    ///
    /// The track is the one that [`pick`] names. The result is the note that
    /// the event completed, `None` where it completed none or where every
    /// track is read to its end, or the reason why the event could not be
    /// read; the bytes of an event that could not be read are used up. A note
    /// that is completed in a file of zero ticks to the quarter note cannot
    /// be timed: the event is read, the note is closed, and the result is a
    /// `HeaderMismatch`.
    pub fn try_next_event(&mut self) -> (r: Result<Option<MidiEvent>, MidiError>)
        requires
            old(self).wf(),
        ensures
            final(self).wf(),
            final(self)@ == next_step(old(self)@).0,
            r == next_step(old(self)@).1,
    {
        proof {
            lemma_step_progress(self@);
        }
        match self.pick_track() {
            Some(idx) => self.parse_event(idx),
            None => Ok(None),
        }
    }

    /// The track to read next.
    fn pick_track(&self) -> (r: Option<usize>)
        requires
            self.wf(),
        ensures
            match r {
                Some(idx) => pick(self@) == Some(idx as int),
                None => pick(self@) is None,
            },
    {
        let ghost data = self.data@;
        let ghost tracks = self@.tracks;
        let mut best: Option<usize> = None;
        let mut best_tick: u64 = 0;
        let mut i: usize = 0;
        while i < self.tracks.len()
            invariant
                i <= self.tracks@.len(),
                data == self.data@,
                data == self@.data,
                tracks == self@.tracks,
                tracks.len() == self.tracks@.len(),
                forall|k: int|
                    0 <= k < tracks.len() ==> tracks[k] == (#[trigger] self.tracks@[k])@
                        && track_ok(data, tracks[k]),
                match best {
                    Some(b) => pick_among(data, tracks, i as int) == Some(b as int) && b < i
                        && due(data, tracks[b as int]) == Some(best_tick as int),
                    None => pick_among(data, tracks, i as int) is None,
                },
            decreases self.tracks@.len() - i,
        {
            match self.tracks[i].peek_due(self.data.as_slice()) {
                Some(Ok(tick)) => {
                    let sooner = match best {
                        Some(_) => tick < best_tick,
                        None => true,
                    };
                    if sooner {
                        best = Some(i);
                        best_tick = tick;
                    }
                },
                Some(Err(_)) => {
                    proof {
                        assert(pick_among(data, tracks, i + 1) == Some(i as int));
                        lemma_pick_sticks(data, tracks, i + 1, tracks.len() as int);
                    }
                    return Some(i);
                },
                None => {},
            }
            i = i + 1;
        }
        best
    }

    /// Reads the next event of track `idx`.
    fn parse_event(&mut self, idx: usize) -> (r: Result<Option<MidiEvent>, MidiError>)
        requires
            old(self).wf(),
            idx < old(self)@.tracks.len(),
        ensures
            final(self)@ == step_on(old(self)@, idx as int).0,
            r == step_on(old(self)@, idx as int).1,
            well_formed(step_on(old(self)@, idx as int).0) ==> final(self).wf(),
    {
        assert(track_ok(self@.data, self@.tracks[idx as int]));
        let tpq = self.ticks_per_quarter;
        let r = self.tracks[idx].parse_event(
            self.data.as_slice(),
            tpq,
            &mut self.tempo_us_per_quarter,
        );
        assert(self@.tracks =~= old(self)@.tracks.update(idx as int, self.tracks@[idx as int]@));
        r
    }

    /// Whether every track is read to its end.
    fn is_exhausted(&self) -> (done: bool)
        ensures
            done == exhausted(self@),
    {
        let mut i: usize = 0;
        while i < self.tracks.len()
            invariant
                i <= self.tracks@.len(),
                forall|j: int| 0 <= j < i ==> !live(#[trigger] self@.tracks[j]),
            decreases self.tracks@.len() - i,
        {
            assert(self@.tracks[i as int] == self.tracks@[i as int]@);
            if self.tracks[i].cursor.pos < self.tracks[i].cursor.end {
                return false;
            }
            i = i + 1;
        }
        true
    }

    /// Reads on to the next completed note, in order of time over all tracks.
    ///
    /// Events that complete no note, and events that cannot be read, are
    /// passed over. `None` only when every track is read to its end.
    pub fn next_event(&mut self) -> (r: Option<MidiEvent>)
        requires
            old(self).wf(),
        ensures
            final(self).wf(),
            final(self)@ == next_emitted(old(self)@).0,
            r == next_emitted(old(self)@).1,
            r is None ==> exhausted(final(self)@),
    {
        proof {
            lemma_emitted_progress(self@);
        }
        loop
            invariant
                self.wf(),
                next_emitted(self@) == next_emitted(old(self)@),
            decreases unread(self@.tracks),
        {
            proof {
                lemma_step_progress(self@);
            }
            match self.try_next_event() {
                Ok(Some(event)) => {
                    return Some(event);
                },
                _ => {
                    if self.is_exhausted() {
                        return None;
                    }
                },
            }
        }
    }

    /// Reads every note that is left and puts the notes in order of their
    /// start; notes that start together stay in the order in which the merge
    /// completed them.
    pub fn parse(self) -> (r: Result<Vec<MidiEvent>, MidiError>)
        requires
            self.wf(),
        ensures
            r matches Ok(events) && events@ == stable_sort(all_events(self@)) && ascending(
                events@,
            ),
    {
        let mut reader = self;
        let mut found: Vec<MidiEvent> = Vec::new();
        proof {
            assert(Seq::<MidiEvent>::empty() + all_events(self@) =~= all_events(self@));
        }
        loop
            invariant_except_break
                all_events(self@) == found@ + all_events(reader@),
            invariant
                self.wf(),
                reader.wf(),
            ensures
                all_events(self@) == found@,
            decreases unread(reader@.tracks),
        {
            proof {
                lemma_emitted_progress(reader@);
            }
            match reader.next_event() {
                Some(event) => {
                    proof {
                        assert(found@ + (seq![event] + all_events(reader@)) =~= found@.push(event)
                            + all_events(reader@));
                    }
                    found.push(event);
                },
                None => {
                    assert(found@ + Seq::<MidiEvent>::empty() =~= found@);
                    break ;
                },
            }
        }
        Ok(sort_ranked(&found))
    }

    /// Summarises the notes that are left: the most that sound at once, their
    /// number, and the instant at which the last one stops. The reader is left
    /// as it was.
    pub fn info(&mut self) -> (r: Result<MidiInfo, MidiError>)
        requires
            old(self).wf(),
        ensures
            final(self)@ == old(self)@,
            final(self).wf(),
            r == Ok::<MidiInfo, MidiError>(summary(stable_sort(all_events(old(self)@)))),
    {
        let events = self.clone().parse()?;
        Ok(summarize(events.as_slice()))
    }

    /// The single voice of the notes that are left: at every instant the
    /// highest note sounding. The reader is left as it was.
    pub fn as_monophonic(&mut self) -> (r: Result<Vec<MidiEvent>, MidiError>)
        requires
            old(self).wf(),
        ensures
            final(self)@ == old(self)@,
            final(self).wf(),
            r matches Ok(voice) && voice@ == mono_reduction(stable_sort(all_events(old(self)@)))
                && non_overlapping(voice@),
    {
        let events = self.clone().parse()?;
        Ok(reduce(events.as_slice()))
    }
}

impl Clone for TrackState {
    fn clone(&self) -> (copy: Self)
        ensures
            copy@ == self@,
    {
        let mut active_notes: Vec<(u8, u64, u8)> = Vec::new();
        let mut i: usize = 0;
        while i < self.active_notes.len()
            invariant
                i <= self.active_notes@.len(),
                active_notes@ == self.active_notes@.take(i as int),
            decreases self.active_notes@.len() - i,
        {
            active_notes.push(self.active_notes[i]);
            assert(self.active_notes@.take(i + 1) =~= self.active_notes@.take(i as int).push(
                self.active_notes@[i as int],
            ));
            i = i + 1;
        }
        assert(self.active_notes@.take(self.active_notes@.len() as int) =~= self.active_notes@);
        TrackState {
            start: self.start,
            cursor: Cursor { pos: self.cursor.pos, end: self.cursor.end },
            absolute_tick: self.absolute_tick,
            running_status: self.running_status,
            active_notes,
        }
    }
}

impl Clone for MidiReader {
    fn clone(&self) -> (copy: Self)
        ensures
            copy@ == self@,
    {
        let mut tracks: Vec<TrackState> = Vec::new();
        let mut i: usize = 0;
        while i < self.tracks.len()
            invariant
                i <= self.tracks@.len(),
                tracks@.len() == i,
                forall|k: int| 0 <= k < i ==> (#[trigger] tracks@[k])@ == self.tracks@[k]@,
            decreases self.tracks@.len() - i,
        {
            tracks.push(self.tracks[i].clone());
            i = i + 1;
        }
        let copy = MidiReader {
            data: vstd::slice::slice_to_vec(self.data.as_slice()),
            ticks_per_quarter: self.ticks_per_quarter,
            tempo_us_per_quarter: self.tempo_us_per_quarter,
            tracks,
        };
        assert(copy@.tracks =~= self@.tracks);
        copy
    }
}

} // verus!

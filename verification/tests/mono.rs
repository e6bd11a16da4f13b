use bad_apple::midi::MidiEvent;
use bad_apple::mono::reduce;
use bad_apple::polyphony::summarize;
use bad_apple::sort::sort_ranked;

fn note(timestamp_ms: u64, note: u8, duration_ms: u32) -> MidiEvent {
    MidiEvent { timestamp_ms, note, velocity: 64, duration_ms }
}

fn no_overlap(voice: &[MidiEvent]) -> bool {
    voice.windows(2).all(|w| w[0].timestamp_ms + w[0].duration_ms as u64 <= w[1].timestamp_ms)
}

#[test]
fn the_higher_note_takes_over_without_a_gap() {
    let voice = reduce(&[note(0, 60, 100), note(50, 64, 100)]);
    assert_eq!(voice, vec![note(0, 60, 50), note(50, 64, 100)]);
    assert_eq!(voice[0].timestamp_ms + voice[0].duration_ms as u64, voice[1].timestamp_ms);
}

#[test]
fn the_lower_note_comes_back_when_the_higher_ends() {
    let voice = reduce(&[note(0, 60, 100), note(20, 64, 20)]);
    assert_eq!(voice, vec![note(0, 60, 20), note(20, 64, 20), note(40, 60, 60)]);
    assert!(no_overlap(&voice));
}

#[test]
fn a_lower_note_under_a_higher_is_not_heard() {
    let voice = reduce(&[note(0, 72, 100), note(10, 60, 50)]);
    assert_eq!(voice, vec![note(0, 72, 100)]);
}

#[test]
fn silence_between_notes_stays() {
    let voice = reduce(&[note(0, 60, 10), note(30, 62, 10)]);
    assert_eq!(voice, vec![note(0, 60, 10), note(30, 62, 10)]);
}

#[test]
fn a_stop_comes_before_a_start_at_the_same_instant() {
    // the same note struck again at the instant it stops: two notes, not one
    let voice = reduce(&[note(0, 60, 50), note(50, 60, 50)]);
    assert_eq!(voice, vec![note(0, 60, 50), note(50, 60, 50)]);
    let voice = reduce(&[note(0, 64, 50), note(50, 60, 50)]);
    assert_eq!(voice, vec![note(0, 64, 50), note(50, 60, 50)]);
}

#[test]
fn the_same_note_twice_sounds_until_both_are_over() {
    let voice = reduce(&[note(0, 60, 100), note(50, 60, 100)]);
    assert_eq!(voice, vec![note(0, 60, 150)]);
}

#[test]
fn a_note_of_no_length_is_not_heard() {
    assert_eq!(reduce(&[note(5, 60, 0)]), vec![]);
    let voice = reduce(&[note(0, 60, 100), note(50, 72, 0)]);
    assert_eq!(voice, vec![note(0, 60, 100)]);
}

#[test]
fn no_notes_give_no_voice() {
    assert_eq!(reduce(&[]), vec![]);
}

#[test]
fn notes_out_of_order_are_put_in_order() {
    let voice = reduce(&[note(50, 64, 100), note(0, 60, 100)]);
    assert_eq!(voice, vec![note(0, 60, 50), note(50, 64, 100)]);
}

#[test]
fn the_voice_carries_the_fixed_velocity() {
    let voice = reduce(&[MidiEvent { timestamp_ms: 0, note: 60, velocity: 1, duration_ms: 10 }]);
    assert_eq!(voice, vec![note(0, 60, 10)]);
}

#[test]
fn a_chord_progression_never_overlaps() {
    let mut events = Vec::new();
    for i in 0..40u64 {
        events.push(note(i * 37 % 500, (40 + i * 7 % 30) as u8, (20 + i * 13 % 90) as u32));
    }
    let voice = reduce(&events);
    assert!(!voice.is_empty());
    assert!(no_overlap(&voice));
}

#[test]
fn a_note_at_the_end_of_time_is_held_to_it() {
    let voice = reduce(&[note(u64::MAX - 5, 60, 100)]);
    assert_eq!(voice, vec![note(u64::MAX - 5, 60, 5)]);
    assert_eq!(reduce(&[note(u64::MAX, 60, 100)]), vec![]);
}

#[test]
fn a_voice_longer_than_a_length_is_held_to_it() {
    let voice = reduce(&[note(0, 60, u32::MAX), note(u32::MAX as u64 - 10, 60, u32::MAX)]);
    assert_eq!(voice, vec![note(0, 60, u32::MAX)]);
}

#[test]
fn sorting_is_stable() {
    let sorted = sort_ranked(&vec![note(5, 1, 0), note(3, 2, 0), note(5, 3, 0), note(3, 4, 0), note(0, 5, 0)]);
    assert_eq!(sorted, vec![note(0, 5, 0), note(3, 2, 0), note(3, 4, 0), note(5, 1, 0), note(5, 3, 0)]);
}

#[test]
fn a_summary_counts_a_note_of_no_length_for_its_instant() {
    let info = summarize(&[note(0, 60, 10), note(5, 62, 0)]);
    assert_eq!(info.max_simultaneous_notes, 2);
    assert_eq!(info.total_notes, 2);
    assert_eq!(info.duration_ms, 5);
}

#[test]
fn a_summary_silences_every_note_of_a_number_at_once() {
    // the first stop of 60 takes both along, so 62 sounds alone
    let info = summarize(&[note(0, 60, 10), note(5, 60, 20), note(12, 62, 5)]);
    assert_eq!(info.max_simultaneous_notes, 2);
    let info = summarize(&[note(0, 60, 10), note(5, 60, 20), note(7, 62, 5)]);
    assert_eq!(info.max_simultaneous_notes, 3);
}

fn highest_sounding(events: &[MidiEvent], t: u64) -> Option<u8> {
    events
        .iter()
        .filter(|e| e.timestamp_ms <= t && t < e.timestamp_ms + e.duration_ms as u64)
        .map(|e| e.note)
        .max()
}

fn voice_note(voice: &[MidiEvent], t: u64) -> Option<u8> {
    voice
        .iter()
        .find(|e| e.timestamp_ms <= t && t < e.timestamp_ms + e.duration_ms as u64)
        .map(|e| e.note)
}

#[test]
fn the_voice_is_the_highest_note_at_every_instant() {
    let mut seed: u64 = 0x2545_F491_4F6C_DD1D;
    let mut next = |bound: u64| {
        seed ^= seed << 13;
        seed ^= seed >> 7;
        seed ^= seed << 17;
        seed % bound
    };
    for _ in 0..40 {
        let mut events = Vec::new();
        for _ in 0..(1 + next(12)) {
            events.push(note(next(60), (50 + next(6)) as u8, next(25) as u32));
        }
        let voice = reduce(&events);
        assert!(no_overlap(&voice));
        for t in 0..100 {
            assert_eq!(voice_note(&voice, t), highest_sounding(&events, t));
        }
    }
}

#[test]
fn a_gap_in_the_voice_is_a_silence() {
    let events = [note(0, 60, 10), note(5, 64, 10), note(30, 62, 5), note(33, 50, 20)];
    let voice = reduce(&events);
    assert_eq!(voice, vec![note(0, 60, 5), note(5, 64, 10), note(30, 62, 5), note(35, 50, 18)]);
    for t in 15..30 {
        assert_eq!(highest_sounding(&events, t), None);
    }
}

#[test]
fn notes_that_start_together_leave_a_note_of_no_length() {
    // the lower one is taken up and dropped at the same instant
    let voice = reduce(&[note(10, 60, 20), note(10, 64, 20)]);
    assert_eq!(voice, vec![note(10, 60, 0), note(10, 64, 20)]);
}

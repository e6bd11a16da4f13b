use bad_apple::midi::MidiEvent;
use bad_apple::scheduler::{Action, PlaybackClock};

fn note(timestamp_ms: u64, note: u8, duration_ms: u32) -> MidiEvent {
    MidiEvent { timestamp_ms, note, velocity: 64, duration_ms }
}

fn waited(actions: &[Action]) -> u64 {
    actions
        .iter()
        .map(|a| match a {
            Action::Delay(ms) => *ms as u64,
            _ => 0,
        })
        .sum()
}

#[test]
fn a_frame_without_notes_is_shown_and_waited_out() {
    let mut clock = PlaybackClock::new();
    assert_eq!(clock.schedule_frame(&[], 33, true), vec![Action::Present, Action::Delay(33)]);
    assert_eq!(clock, PlaybackClock { elapsed_ms: 33, next_event_idx: 0 });
}

#[test]
fn a_note_inside_the_window_is_switched_on_and_off() {
    let mut clock = PlaybackClock::new();
    let actions = clock.schedule_frame(&[note(10, 60, 20)], 33, true);
    assert_eq!(
        actions,
        vec![
            Action::Delay(10),
            Action::ToneOn(60),
            Action::Delay(20),
            Action::ToneOff,
            Action::Present,
            Action::Delay(3),
        ]
    );
    assert_eq!(clock, PlaybackClock { elapsed_ms: 33, next_event_idx: 1 });
}

#[test]
fn a_note_that_starts_with_the_window_needs_no_wait() {
    let mut clock = PlaybackClock::new();
    let actions = clock.schedule_frame(&[note(0, 60, 5)], 33, true);
    assert_eq!(
        actions,
        vec![Action::ToneOn(60), Action::Delay(5), Action::ToneOff, Action::Present, Action::Delay(28)]
    );
}

#[test]
fn a_note_across_the_frame_boundary_keeps_sounding() {
    let events = [note(20, 60, 30)];
    let mut clock = PlaybackClock::new();
    assert_eq!(
        clock.schedule_frame(&events, 33, true),
        vec![Action::Delay(20), Action::ToneOn(60), Action::Present, Action::Delay(13)]
    );
    assert_eq!(clock, PlaybackClock { elapsed_ms: 33, next_event_idx: 0 });
    assert_eq!(
        clock.schedule_frame(&events, 33, true),
        vec![Action::Delay(17), Action::ToneOff, Action::Present, Action::Delay(16)]
    );
    assert_eq!(clock, PlaybackClock { elapsed_ms: 66, next_event_idx: 1 });
}

#[test]
fn a_note_that_ends_with_the_window_is_switched_off_in_it() {
    let mut clock = PlaybackClock::new();
    assert_eq!(
        clock.schedule_frame(&[note(3, 60, 30)], 33, true),
        vec![Action::Delay(3), Action::ToneOn(60), Action::Delay(30), Action::ToneOff, Action::Present]
    );
    assert_eq!(clock, PlaybackClock { elapsed_ms: 33, next_event_idx: 1 });
}

#[test]
fn a_note_that_starts_with_the_next_window_waits_for_it() {
    let events = [note(33, 60, 10)];
    let mut clock = PlaybackClock::new();
    assert_eq!(clock.schedule_frame(&events, 33, true), vec![Action::Present, Action::Delay(33)]);
    assert_eq!(clock.next_event_idx, 0);
    assert_eq!(
        clock.schedule_frame(&events, 33, true),
        vec![Action::ToneOn(60), Action::Delay(10), Action::ToneOff, Action::Present, Action::Delay(23)]
    );
}

#[test]
fn a_voice_change_needs_no_wait_between_off_and_on() {
    let events = [note(0, 60, 10), note(10, 64, 10)];
    let mut clock = PlaybackClock::new();
    assert_eq!(
        clock.schedule_frame(&events, 33, true),
        vec![
            Action::ToneOn(60),
            Action::Delay(10),
            Action::ToneOff,
            Action::ToneOn(64),
            Action::Delay(10),
            Action::ToneOff,
            Action::Present,
            Action::Delay(13),
        ]
    );
    assert_eq!(clock.next_event_idx, 2);
}

#[test]
fn a_skipped_frame_still_takes_its_window() {
    let mut clock = PlaybackClock::new();
    let actions = clock.schedule_frame(&[note(10, 60, 5)], 33, false);
    assert_eq!(
        actions,
        vec![Action::Delay(10), Action::ToneOn(60), Action::Delay(5), Action::ToneOff, Action::Delay(18)]
    );
    assert_eq!(clock.elapsed_ms, 33);
}

#[test]
fn the_clock_does_not_drift() {
    let mut events = Vec::new();
    for i in 0..200u64 {
        events.push(note(i * 17, (40 + i % 40) as u8, 1 + (i * 5 % 16) as u32));
    }
    for frame_ms in [1u32, 16, 33, 40, 1000] {
        let mut clock = PlaybackClock::new();
        let mut last_idx = 0;
        for k in 1..=150u64 {
            let actions = clock.schedule_frame(&events, frame_ms, k % 7 != 0);
            assert_eq!(clock.elapsed_ms, k * frame_ms as u64);
            assert_eq!(waited(&actions), frame_ms as u64);
            assert!(clock.next_event_idx >= last_idx);
            last_idx = clock.next_event_idx;
        }
    }
}

#[test]
fn every_note_is_switched_on_and_off_once() {
    let events = [note(5, 60, 30), note(35, 62, 1), note(36, 64, 100), note(200, 65, 3)];
    let mut clock = PlaybackClock::new();
    let mut all = Vec::new();
    for _ in 0..10 {
        all.extend(clock.schedule_frame(&events, 33, true));
    }
    all.push(clock.finish());
    let tones: Vec<Action> =
        all.into_iter().filter(|a| !matches!(a, Action::Delay(_) | Action::Present)).collect();
    assert_eq!(
        tones,
        vec![
            Action::ToneOn(60),
            Action::ToneOff,
            Action::ToneOn(62),
            Action::ToneOff,
            Action::ToneOn(64),
            Action::ToneOff,
            Action::ToneOn(65),
            Action::ToneOff,
            Action::ToneOff,
        ]
    );
    assert_eq!(clock, PlaybackClock { elapsed_ms: 330, next_event_idx: 4 });
}

#[test]
fn a_frame_of_no_length_does_nothing() {
    let mut clock = PlaybackClock::new();
    assert_eq!(clock.schedule_frame(&[note(0, 60, 5)], 0, true), vec![Action::Present]);
    assert_eq!(clock, PlaybackClock { elapsed_ms: 0, next_event_idx: 0 });
}

#[test]
fn the_end_of_playback_silences_the_speaker() {
    assert_eq!(PlaybackClock::new().finish(), Action::ToneOff);
}

fn tones_with_instants(events: &[MidiEvent], frame_ms: u32, frames: u64) -> Vec<(u64, Action)> {
    let mut clock = PlaybackClock::new();
    let mut now = 0u64;
    let mut out = Vec::new();
    for _ in 0..frames {
        for action in clock.schedule_frame(events, frame_ms, true) {
            match action {
                Action::Delay(ms) => now += ms as u64,
                Action::Present => {}
                tone => out.push((now, tone)),
            }
        }
        assert_eq!(now, clock.elapsed_ms);
    }
    out
}

#[test]
fn every_note_is_switched_at_its_own_instants_whatever_the_frames() {
    let events = [note(0, 60, 7), note(7, 62, 40), note(50, 64, 0), note(50, 65, 30), note(95, 67, 5)];
    let expected = vec![
        (0, Action::ToneOn(60)),
        (7, Action::ToneOff),
        (7, Action::ToneOn(62)),
        (47, Action::ToneOff),
        (50, Action::ToneOn(64)),
        (50, Action::ToneOff),
        (50, Action::ToneOn(65)),
        (80, Action::ToneOff),
        (95, Action::ToneOn(67)),
        (100, Action::ToneOff),
    ];
    assert_eq!(tones_with_instants(&events, 33, 4), expected);
    assert_eq!(tones_with_instants(&events, 1, 100), expected);
    assert_eq!(tones_with_instants(&events, 7, 15), expected);
    assert_eq!(tones_with_instants(&events, 100, 1), expected);
    assert_eq!(tones_with_instants(&events, 1000, 1), expected);
    // a session that ends at 50 ms: the note of no length that starts then is not reached
    assert_eq!(tones_with_instants(&events, 25, 2), expected[..4].to_vec());
    // and one that ends at 96 ms leaves the last note sounding
    assert_eq!(tones_with_instants(&events, 32, 3), expected[..9].to_vec());
}

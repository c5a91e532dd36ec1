use fmtracker::scheduler::{Scheduler, QUANTIZE};
use fmtracker::song::{Note, Song, FULL_VELOCITY};

fn note(pitch: u32, beat: u32, division: u32, duration: u32) -> Note {
    Note::new(pitch, beat, division, duration, FULL_VELOCITY)
}

#[test]
fn first_tick_runs_a_quantum() {
    let mut s = Scheduler::new();
    assert!(s.quantum_due());
    s.send(0, note(60, 0, 0, 96));
    assert_eq!(s.tick(0, 1), vec![(0, note(60, 0, 0, 96))]);
    assert!(!s.quantum_due());
}

#[test]
fn quanta_come_every_quantize_plus_one_samples() {
    let mut s = Scheduler::new();
    assert!(s.tick(0, 1).is_empty());
    s.send(0, note(60, 0, 0, 96));
    for _ in 0..QUANTIZE {
        assert!(s.tick(0, 1).is_empty());
    }
    assert_eq!(s.queued_len(), 1);
    assert!(s.quantum_due());
    assert_eq!(s.tick(0, 1), vec![(0, note(60, 0, 0, 96))]);
    assert_eq!(s.queued_len(), 0);
}

#[test]
fn far_future_note_holds_back_a_current_one() {
    let mut s = Scheduler::new();
    let future = note(60, 100, 0, 96);
    let now = note(62, 0, 0, 96);
    s.send(0, future);
    s.send(0, now);
    assert!(s.quantum(0, 1).is_empty());
    assert_eq!(s.next_note(), Some((0, future)));
    assert_eq!(s.queued_len(), 1);
    // Later quanta before the future note is due still play nothing.
    assert!(s.quantum(96 * 50, 1).is_empty());
    assert_eq!(s.queued_len(), 1);
    // Once it is due, it plays, and the late note behind it with it.
    assert_eq!(s.quantum(96 * 100, 1), vec![(0, future), (0, now)]);
    assert_eq!(s.next_note(), None);
    assert_eq!(s.queued_len(), 0);
}

#[test]
fn due_notes_play_in_queue_order() {
    let mut s = Scheduler::new();
    s.send(1, note(60, 0, 0, 96));
    s.send(0, note(62, 0, 10, 96));
    s.send(1, note(64, 0, 20, 96));
    s.send(0, note(65, 1, 0, 96));
    assert_eq!(
        s.quantum(30, 2),
        vec![(1, note(60, 0, 0, 96)), (0, note(62, 0, 10, 96)), (1, note(64, 0, 20, 96))]
    );
    assert_eq!(s.next_note(), Some((0, note(65, 1, 0, 96))));
    assert_eq!(s.queued_len(), 0);
}

#[test]
fn cues_for_unknown_instruments_are_dropped() {
    let mut s = Scheduler::new();
    s.send(5, note(60, 0, 0, 96));
    s.send(1, note(62, 0, 0, 96));
    assert_eq!(s.quantum(0, 2), vec![(1, note(62, 0, 0, 96))]);
    assert_eq!(s.queued_len(), 0);
}

#[test]
fn deferred_note_for_unknown_instrument_is_dropped_when_due() {
    let mut s = Scheduler::new();
    s.send(3, note(60, 1, 0, 96));
    assert!(s.quantum(0, 1).is_empty());
    assert_eq!(s.next_note(), Some((3, note(60, 1, 0, 96))));
    assert!(s.quantum(96, 1).is_empty());
    assert_eq!(s.next_note(), None);
}

#[test]
fn flush_notes_drops_everything_and_makes_a_quantum_due() {
    let mut s = Scheduler::new();
    s.tick(0, 1);
    s.send(0, note(60, 9, 0, 96));
    s.send(0, note(62, 9, 0, 96));
    s.quantum(0, 1);
    s.flush_notes();
    assert_eq!(s.queued_len(), 0);
    assert_eq!(s.next_note(), None);
    assert!(s.quantum_due());
    assert!(s.tick(96 * 10, 1).is_empty());
}

#[test]
fn sequenced_song_plays_in_start_order() {
    let mut song = Song::new(2, 60, 4);
    song.add_note(0, note(50, 2, 0, 10));
    song.add_note(0, note(51, 0, 0, 10));
    song.add_note(1, note(52, 1, 0, 10));
    let mut s = Scheduler::new();
    for (i, n) in song.sequence() {
        s.send(i, n);
    }
    let mut played = Vec::new();
    let mut position = 0u64;
    while played.len() < 3 {
        played.extend(s.quantum(position, 2));
        position += 48;
    }
    assert_eq!(played, vec![(0, note(51, 0, 0, 10)), (1, note(52, 1, 0, 10)), (0, note(50, 2, 0, 10))]);
}

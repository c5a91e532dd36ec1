use fmtracker::song::{Note, Song, Time, BEAT_DIVISIONS, FULL_VELOCITY};

fn note(pitch: u32, beat: u32, division: u32, duration: u32) -> Note {
    Note::new(pitch, beat, division, duration, FULL_VELOCITY)
}

#[test]
fn time_add_normalizes_division() {
    let t = Time::new(1, 90).add(10);
    assert_eq!(t.beat, 2);
    assert_eq!(t.division, 4);
    assert_eq!(t.as_divs(), 196);
}

#[test]
fn time_add_moves_position_by_the_divisions() {
    for &(b, d, k) in &[(0u32, 0u32, 0u32), (3, 5, 500), (7, 95, 1), (0, 0, 96), (10, 50, 1000)] {
        let t = Time::new(b, d).add(k);
        assert_eq!(t.as_divs(), b * BEAT_DIVISIONS + d + k);
        assert!(t.division < BEAT_DIVISIONS);
    }
}

#[test]
fn time_add_normalizes_an_unnormalized_time() {
    let t = Time::new(0, 200).add(0);
    assert_eq!(t.beat, 2);
    assert_eq!(t.division, 8);
}

#[test]
fn time_diff_is_signed() {
    assert_eq!(Time::new(2, 0).diff(Time::new(1, 48)), 48);
    assert_eq!(Time::new(1, 48).diff(Time::new(2, 0)), -48);
    assert_eq!(Time::new(3, 3).diff(Time::new(3, 3)), 0);
}

#[test]
fn time_as_divs_counts_divisions() {
    assert_eq!(Time::new(4, 12).as_divs(), 396);
    assert_eq!(Time::new(0, 0).as_divs(), 0);
}

#[test]
fn overlap_is_symmetric() {
    let a = note(60, 0, 0, 96);
    let b = note(60, 0, 48, 96);
    let c = note(60, 1, 0, 96);
    assert!(a.overlap(b));
    assert!(b.overlap(a));
    assert!(!a.overlap(c));
    assert!(!c.overlap(a));
    assert!(b.overlap(c));
    assert!(c.overlap(b));
}

#[test]
fn zero_length_note_overlaps_nothing() {
    let z = note(60, 0, 48, 0);
    let a = note(60, 0, 0, 96);
    assert!(!z.overlap(a));
    assert!(!a.overlap(z));
    assert!(!z.overlap(z));
}

#[test]
fn note_that_lasts_overlaps_itself() {
    let a = note(60, 0, 0, 1);
    assert!(a.overlap(a));
}

#[test]
fn contains_includes_start_and_excludes_end() {
    let a = note(60, 1, 0, 48);
    assert!(a.contains(Time::new(1, 0)));
    assert!(a.contains(Time::new(1, 47)));
    assert!(!a.contains(Time::new(1, 48)));
    assert!(!a.contains(Time::new(0, 95)));
}

#[test]
fn name_and_octave_of_pitches() {
    let a4 = note(57, 0, 0, 96);
    assert_eq!(a4.name(), "A");
    assert_eq!(a4.octave(), 4);
    let cs1 = note(13, 0, 0, 96);
    assert_eq!(cs1.name(), "C#");
    assert_eq!(cs1.octave(), 1);
    let b0 = note(11, 0, 0, 96);
    assert_eq!(b0.name(), "B");
    assert_eq!(b0.octave(), 0);
    let c0 = note(0, 0, 0, 96);
    assert_eq!(c0.name(), "C");
    assert_eq!(c0.octave(), 0);
}

#[test]
fn new_song_has_empty_parts() {
    let s = Song::new(4, 120, 3);
    assert_eq!(s.bpm, 120);
    assert_eq!(s.beats_per_bar, 3);
    assert_eq!(s.parts.len(), 4);
    assert!(s.parts.iter().all(|p| p.is_empty()));
}

#[test]
fn add_note_appends_to_the_part() {
    let mut s = Song::new(2, 60, 4);
    s.add_note(1, note(24, 0, 0, 90));
    s.add_note(1, note(29, 1, 0, 90));
    assert!(s.parts[0].is_empty());
    assert_eq!(s.parts[1], vec![note(24, 0, 0, 90), note(29, 1, 0, 90)]);
}

#[test]
fn insert_note_takes_out_overlapping_notes_of_the_same_pitch() {
    let mut s = Song::new(1, 60, 4);
    let n1 = note(60, 0, 0, 96);
    let n2 = note(62, 0, 0, 96);
    let n3 = note(60, 2, 0, 96);
    s.add_note(0, n1);
    s.add_note(0, n2);
    s.add_note(0, n3);
    let new = note(60, 0, 48, 96);
    s.insert_note(0, new);
    assert_eq!(s.parts[0], vec![n2, n3, new]);
}

#[test]
fn insert_note_into_an_empty_part() {
    let mut s = Song::new(2, 60, 4);
    let n = note(40, 3, 0, 24);
    s.insert_note(0, n);
    assert_eq!(s.parts[0], vec![n]);
    assert!(s.parts[1].is_empty());
}

#[test]
fn find_note_returns_the_first_match() {
    let mut s = Song::new(1, 60, 4);
    s.add_note(0, note(60, 0, 0, 96));
    s.add_note(0, note(60, 0, 48, 96));
    s.add_note(0, note(62, 1, 0, 96));
    assert_eq!(s.find_note(0, Time::new(0, 60), 60), Some((0, note(60, 0, 0, 96))));
    assert_eq!(s.find_note(0, Time::new(1, 10), 60), Some((1, note(60, 0, 48, 96))));
    assert_eq!(s.find_note(0, Time::new(1, 10), 62), Some((2, note(62, 1, 0, 96))));
    assert_eq!(s.find_note(0, Time::new(5, 0), 60), None);
}

#[test]
fn duration_is_the_latest_end_of_the_last_notes() {
    let mut s = Song::new(3, 60, 4);
    assert_eq!(s.duration_divs(), 0);
    s.add_note(0, note(24, 0, 0, 90));
    s.add_note(0, note(29, 1, 0, 90));
    s.add_note(1, note(31, 2, 0, 90));
    assert_eq!(s.duration_divs(), 192 + 90);
    // Only the last note of a part counts, even when an earlier one ends later.
    s.add_note(2, note(40, 10, 0, 96));
    s.add_note(2, note(41, 0, 0, 10));
    assert_eq!(s.duration_divs(), 192 + 90);
}

#[test]
fn sequence_orders_by_start_and_keeps_ties_in_order() {
    let mut s = Song::new(3, 60, 4);
    s.add_note(0, note(50, 2, 0, 10));
    s.add_note(0, note(51, 0, 0, 10));
    s.add_note(1, note(52, 1, 0, 10));
    s.add_note(1, note(53, 0, 0, 10));
    s.add_note(2, note(54, 1, 0, 10));
    let seq = s.sequence();
    assert_eq!(
        seq,
        vec![
            (0, note(51, 0, 0, 10)),
            (1, note(53, 0, 0, 10)),
            (1, note(52, 1, 0, 10)),
            (2, note(54, 1, 0, 10)),
            (0, note(50, 2, 0, 10)),
        ]
    );
    for w in seq.windows(2) {
        assert!(w[0].1.start.as_divs() <= w[1].1.start.as_divs());
    }
}

#[test]
fn sequence_of_an_empty_song_is_empty() {
    assert!(Song::new(4, 60, 4).sequence().is_empty());
    assert!(Song::new(0, 60, 4).sequence().is_empty());
}

#[test]
fn inserted_notes_never_share_a_cell() {
    let mut s = Song::new(1, 60, 4);
    let inserts = [
        note(60, 0, 0, 96),
        note(60, 0, 48, 96),
        note(62, 0, 0, 192),
        note(60, 1, 90, 10),
        note(62, 1, 0, 1),
        note(60, 0, 0, 0),
        note(60, 3, 0, 96),
    ];
    for n in inserts {
        s.insert_note(0, n);
    }
    let part = &s.parts[0];
    for i in 0..part.len() {
        for j in 0..part.len() {
            if i != j {
                assert!(!(part[i].pitch == part[j].pitch && part[i].overlap(part[j])));
            }
        }
    }
    assert_eq!(part.last(), Some(&note(60, 3, 0, 96)));
}

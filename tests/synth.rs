use fmtracker::synth::{has_room_for_operator, ReceiveKind, WaveType, MAX_OPERATORS};

#[test]
fn only_modulation_scales_with_frequency() {
    assert!(ReceiveKind::Modulate.scales_with_frequency());
    assert!(!ReceiveKind::Normal.scales_with_frequency());
    assert!(!ReceiveKind::Vibrato.scales_with_frequency());
}

#[test]
fn instrument_holds_at_most_max_operators() {
    assert!(has_room_for_operator(0));
    assert!(has_room_for_operator(MAX_OPERATORS - 1));
    assert!(!has_room_for_operator(MAX_OPERATORS));
}

#[test]
fn wave_types_compare() {
    assert_eq!(WaveType::Sine, WaveType::Sine);
    assert_ne!(WaveType::Square, WaveType::Sawtooth);
}

use music_comp_mt::harmonize::{canonicalize_melody, HarmonizeError, HarmonizeOptions, MelodyInput};

#[test]
fn test_pitches_with_default_offset() {
    let opts = HarmonizeOptions::default();
    let result = canonicalize_melody(&MelodyInput::Pitches(vec![72, 76, 79]), &opts).unwrap();
    assert_eq!(result, vec![60, 64, 67]);
}

#[test]
fn test_pcs_with_default_offset() {
    let opts = HarmonizeOptions::default();
    let result = canonicalize_melody(&MelodyInput::PitchClasses(vec![0, 4, 7]), &opts).unwrap();
    assert_eq!(result, vec![60, 64, 67]);
}

#[test]
fn test_invalid_pitch_class() {
    let opts = HarmonizeOptions::default();
    let result = canonicalize_melody(&MelodyInput::PitchClasses(vec![13]), &opts);
    assert!(matches!(result, Err(HarmonizeError::InvalidPitchClass(13))));
}

#[test]
fn test_empty_melody() {
    let opts = HarmonizeOptions::default();
    let result = canonicalize_melody(&MelodyInput::PitchClasses(vec![]), &opts);
    assert!(matches!(result, Err(HarmonizeError::EmptyMelody)));
}

#[test]
fn test_underflow_target() {
    let opts = HarmonizeOptions { top_voice_offset: -12, ..Default::default() };
    let result = canonicalize_melody(&MelodyInput::Pitches(vec![5]), &opts);
    assert!(matches!(result, Err(HarmonizeError::TargetMidiOutOfRange { position: 0, .. })));
}

#[test]
fn test_overflow_target() {
    let opts = HarmonizeOptions { top_voice_offset: 12, ..Default::default() };
    let result = canonicalize_melody(&MelodyInput::Pitches(vec![127]), &opts);
    assert!(matches!(result, Err(HarmonizeError::TargetMidiOutOfRange { position: 0, .. })));
}

#[test]
fn test_position_field_carries_correct_index() {
    let opts = HarmonizeOptions { top_voice_offset: -12, ..Default::default() };
    let result = canonicalize_melody(&MelodyInput::Pitches(vec![60, 5, 60]), &opts);
    assert!(matches!(result, Err(HarmonizeError::TargetMidiOutOfRange { position: 1, .. })));
}

#[test]
fn default_options_are_documented_values() {
    let opts = HarmonizeOptions::default();
    assert_eq!(opts.top_voice_offset, -12);
    assert_eq!(opts.melody_octave, 5);
    assert_eq!(opts.k, 10);
}

#[test]
fn underflow_reports_computed_target() {
    let opts = HarmonizeOptions { top_voice_offset: -12, ..Default::default() };
    let result = canonicalize_melody(&MelodyInput::Pitches(vec![5]), &opts);
    assert_eq!(result, Err(HarmonizeError::TargetMidiOutOfRange { position: 0, target_midi: -7 }));
}

#[test]
fn empty_pitches_is_empty_melody() {
    let opts = HarmonizeOptions::default();
    assert_eq!(canonicalize_melody(&MelodyInput::Pitches(vec![]), &opts), Err(HarmonizeError::EmptyMelody));
}

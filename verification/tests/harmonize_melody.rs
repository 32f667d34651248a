use music_comp_mt::harmonize::{harmonize_melody, HarmonizeError, HarmonizeOptions, MelodyInput};

#[test]
fn test_error_display_messages() {
    let cases: Vec<(HarmonizeError, &str)> = vec![
        (HarmonizeError::EmptyMelody, "melody must contain at least one note"),
        (HarmonizeError::InvalidPitchClass(13), "melody pitch class 13 is outside the valid range 0..=11"),
        (
            HarmonizeError::TargetMidiOutOfRange { position: 2, target_midi: -7 },
            "target MIDI pitch -7 at position 2 is out of the playable range after applying top_voice_offset",
        ),
        (
            HarmonizeError::NoCandidatesForPosition { position: 0, top_midi: 60 },
            "no candidate chord found for melody position 0 (top pitch 60)",
        ),
    ];
    for (err, expected) in cases {
        assert_eq!(err.to_string(), expected, "Display mismatch for {:?}", err);
    }
}

#[test]
fn harmonize_rejects_empty_melody() {
    let r = harmonize_melody(MelodyInput::PitchClasses(vec![]), HarmonizeOptions::default());
    assert_eq!(r, Err(HarmonizeError::EmptyMelody));
}

#[test]
fn harmonize_rejects_bad_pitch_class() {
    let r = harmonize_melody(MelodyInput::PitchClasses(vec![0, 12]), HarmonizeOptions::default());
    assert_eq!(r, Err(HarmonizeError::InvalidPitchClass(12)));
}

#[test]
fn harmonize_places_melody_on_top() {
    let opts = HarmonizeOptions::default();
    let r = harmonize_melody(MelodyInput::PitchClasses(vec![0, 4, 7]), opts).unwrap();
    assert!(!r.is_empty());
    assert!(r.len() <= 10);
    for h in &r {
        assert_eq!(h.chords.len(), 3);
        assert_eq!(h.chords[0].pitches[3], 60);
        assert_eq!(h.chords[1].pitches[3], 64);
        assert_eq!(h.chords[2].pitches[3], 67);
    }
    for w in r.windows(2) {
        assert!(w[0].total_movement <= w[1].total_movement);
    }
}

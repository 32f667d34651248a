use music_comp_mt::quintal::{
    pc_to_note_name, render_chord_dashed, render_pcset_dashed, ModeError, Orbit, OthMode, PcChord,
    StepVocabularyCluster,
};

#[test]
fn doc_example_render_pcset_dashed() {
    let cgda = PcChord::new([0, 2, 7, 9]).unwrap();
    assert_eq!(render_pcset_dashed(&cgda), "C–D–G–A");
}

#[test]
fn doc_example_render_chord_dashed() {
    let cgda = PcChord::new([0, 2, 7, 9]).unwrap();
    assert_eq!(render_chord_dashed(&cgda), "C–G–D–A");
    let saddle = PcChord::new([0, 2, 6, 8]).unwrap();
    assert_eq!(render_chord_dashed(&saddle), "C–F#–D–G#");
}

#[test]
fn note_names_use_sharps_and_wrap() {
    assert_eq!(pc_to_note_name(0), "C");
    assert_eq!(pc_to_note_name(1), "C#");
    assert_eq!(pc_to_note_name(11), "B");
    assert_eq!(pc_to_note_name(13), "C#");
}

#[test]
fn mode_error_messages() {
    let e = ModeError::FiberModeMismatch { orbit: Orbit::Q777, rotation: 2, expected: [2, 2, 3, 5], actual: [2, 3, 2, 5] };
    assert_eq!(e.to_string(), "fiber-mode mismatch for Q(7,7,7) [major] rotation 2: expected [2, 2, 3, 5], got [2, 3, 2, 5]");
    let e = ModeError::MultisetCollision { a: Orbit::Q767, b: Orbit::Q878, multiset: [1, 2, 4, 5] };
    assert_eq!(e.to_string(), "multiset collision between Q(7,6,7) and Q(8,7,8): [1, 2, 4, 5]");
    let e = ModeError::InvalidStepSum { orbit: Orbit::Q686, steps: [2, 4, 2, 5], sum: 13 };
    assert_eq!(e.to_string(), "step sequence [2, 4, 2, 5] for Q(6,8,6) [augmented] sums to 13 (expected 12)");
}

#[test]
fn oth_mode_accessors_and_label() {
    let m = OthMode::new(Orbit::Q777, 0, [2, 5, 2, 3], [0, 2, 7, 9]);
    assert_eq!(m.orbit(), Orbit::Q777);
    assert_eq!(m.rotation(), 0);
    assert_eq!(m.steps(), [2, 5, 2, 3]);
    assert_eq!(m.pcs_from_c(), [0, 2, 7, 9]);
    assert_eq!(m.opening_interval(), 2);
    assert_eq!(m.to_string(), "Q(7,7,7) [major] M1 [2, 5, 2, 3]");
}

#[test]
fn cluster_names() {
    assert_eq!(StepVocabularyCluster::NoSemitoneNoTritone.to_string(), "No Semitone, No Tritone");
    assert_eq!(StepVocabularyCluster::ContainsTritoneStep.to_string(), "Contains Tritone Step");
}

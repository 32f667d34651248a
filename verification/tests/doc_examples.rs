use music_comp_mt::harmonize::{harmonize_melody, DualityScope, HarmonizeOptions, MelodyInput};
use music_comp_mt::note::parse_midi_pitch;
use music_comp_mt::quartal::{from_stacked_fourths, from_stacked_fourths_voiced, pure_quartal_stack, quartal_neighbors};
use music_comp_mt::quintal::{
    count_geodesics, distance, distances_and_geodesic_counts, geodesics, passing_chords, quintal_root, BaseSpace,
    PcChord,
};

#[test]
fn doc_parse_midi_pitch() {
    assert_eq!(parse_midi_pitch("C4").unwrap(), 60);
    assert_eq!(parse_midi_pitch("A4").unwrap(), 69);
    assert_eq!(parse_midi_pitch("F#3").unwrap(), 54);
    assert_eq!(parse_midi_pitch("Bb3").unwrap(), 58);
}

#[test]
fn doc_harmonize_triad() {
    let result = harmonize_melody(MelodyInput::PitchClasses(vec![0, 4, 7]), HarmonizeOptions::default()).unwrap();
    assert!(!result.is_empty());
}

#[test]
fn doc_harmonize_two_notes() {
    let results = harmonize_melody(MelodyInput::Pitches(vec![72, 76]), HarmonizeOptions { k: 3, ..Default::default() }).unwrap();
    assert_eq!(results.len(), 3);
    for r in &results {
        assert_eq!(r.chords.len(), 2);
        assert_eq!(r.per_step_movements.len(), 1);
        assert_eq!(r.total_movement, r.per_step_movements[0]);
    }
    assert!(results[0].total_movement <= results[2].total_movement);
}

#[test]
fn doc_options_update() {
    let opts = HarmonizeOptions { k: 5, duality: DualityScope::QuintalOnly, ..Default::default() };
    assert_eq!(opts.k, 5);
    assert_eq!(opts.top_voice_offset, -12);
}

#[test]
fn doc_quintal_root() {
    let chord = PcChord::new([0, 2, 7, 9]).unwrap();
    let voiced = quintal_root(&chord, 4).unwrap();
    assert_eq!(voiced.pitches, [48, 55, 62, 69]);
}

#[test]
fn doc_geodesics_and_counts_from_self() {
    let space = BaseSpace::new();
    let a = PcChord::new([0, 2, 7, 9]).unwrap();
    assert_eq!(geodesics(&space, &a, &a), vec![vec![a]]);
    assert_eq!(count_geodesics(&space, &a, &a), 1);
    assert_eq!(distance(&space, &a, &a), Some(0));
    let b = PcChord::new([0, 2, 6, 9]).unwrap();
    assert!(passing_chords(&space, &a, &b).is_empty());
}

#[test]
fn doc_distances_and_geodesic_counts() {
    let space = BaseSpace::new();
    let cgda = PcChord::new([0, 2, 7, 9]).unwrap();
    let result = distances_and_geodesic_counts(&space, &cgda).unwrap();
    assert_eq!(result.distances.len(), 228);
    assert!(result.distances.contains(&(cgda, 0)));
    assert!(result.geodesic_counts.contains(&(cgda, 1)));
}

#[test]
fn doc_quartal_constructors() {
    let chord = from_stacked_fourths(9, &[5, 5, 5]).unwrap();
    assert_eq!(chord.pcs, [0, 2, 7, 9]);
    let voiced = from_stacked_fourths_voiced(57, &[5, 5, 5]).unwrap();
    assert_eq!(voiced.pitches(), [57, 62, 67, 72]);
    let stack = pure_quartal_stack(0);
    assert_eq!(stack.pcs, [0, 3, 5, 10]);
    let space = BaseSpace::new();
    assert!(!quartal_neighbors(&stack, &space).is_empty());
}

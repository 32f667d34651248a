use music_comp_mt::quartal::{
    base_space, from_stacked_fourths, from_stacked_fourths_voiced, pc_chord_quartal_intervals,
    pure_quartal_stack, quartal_inversion_cycle, quartal_l1_distances, quartal_neighbors,
    quartal_reading, quartal_root, quartal_to_quintal_interval, quartal_to_quintal_structure,
    quintal_reading, quintal_to_quartal_interval, quintal_to_quartal_structure, t_quartal,
    t_quartal_reversal_equivalence, t_quartal_reverse, to_quartal, to_quintal, QuartalError, QuartalIntervalStructure, QuartalOrbit,
};
use music_comp_mt::quintal::{IntervalStructure, Orbit, PcChord, VoicedChord};

#[test]
fn readme_quartal_example() {
    let space = base_space();
    assert_eq!(space.len(), 228);
    let quartal_a = pure_quartal_stack(9);
    assert_eq!(quartal_a.pcs, [0, 2, 7, 9]);
    let qis = pc_chord_quartal_intervals(&quartal_a).unwrap();
    assert_eq!(qis, QuartalIntervalStructure(5, 5, 5));
    assert_eq!(QuartalOrbit::Q555.to_quintal(), Orbit::Q777);
    let root = VoicedChord::new([48, 55, 62, 69]).unwrap();
    let qvc = to_quartal(&root);
    assert_eq!(quartal_l1_distances(&qvc), [12, 12, 12, 36]);
}

#[test]
fn interval_complement_is_an_involution() {
    for i in [4u8, 5, 6, 7, 8] {
        assert_eq!(quartal_to_quintal_interval(quintal_to_quartal_interval(i)), i);
    }
    assert_eq!(quintal_to_quartal_interval(7), 5);
    let is = IntervalStructure(7, 6, 8);
    let q = quintal_to_quartal_structure(&is);
    assert_eq!(q, QuartalIntervalStructure(4, 6, 5));
    assert_eq!(quartal_to_quintal_structure(&q), is);
}

#[test]
fn orbit_bijection() {
    for o in QuartalOrbit::all() {
        assert_eq!(QuartalOrbit::from_quintal(&o.to_quintal()), o);
    }
    for o in Orbit::all() {
        assert_eq!(QuartalOrbit::from_quintal(&o).to_quintal(), o);
    }
}

#[test]
fn stacked_fourths_constructors() {
    let c = from_stacked_fourths(9, &[5, 5, 5]).unwrap();
    assert_eq!(c, PcChord::new([0, 2, 7, 9]).unwrap());
    assert_eq!(from_stacked_fourths(9, &[5, 5]), Err(QuartalError::WrongIntervalCount(2)));
    assert_eq!(from_stacked_fourths(9, &[5, 7, 5]), Err(QuartalError::IllegalInterval(7)));
    let v = from_stacked_fourths_voiced(57, &[5, 5, 5]).unwrap();
    assert_eq!(v.pitches(), [57, 62, 67, 72]);
    assert_eq!(QuartalError::IllegalInterval(7).to_string(), "illegal quartal interval: 7 (must be 4, 5, or 6)");
}

#[test]
fn quartal_and_quintal_inversions_undo_each_other() {
    let root = VoicedChord::new([48, 55, 62, 69]).unwrap();
    let q = to_quartal(&root);
    assert_eq!(to_quintal(&q), root);
    let moved = t_quartal(&q);
    assert_eq!(t_quartal_reverse(&moved).pitches(), q.pitches());
    let cycle = quartal_inversion_cycle(&q);
    assert_eq!(cycle[0].pitches(), q.pitches());
}

#[test]
fn readings_of_a_quartal_chord() {
    let q = to_quartal(&VoicedChord::new([48, 55, 62, 69]).unwrap());
    assert_eq!(quartal_reading(&q), QuartalIntervalStructure(5, 5, 5));
    assert_eq!(quintal_reading(&q), IntervalStructure(7, 7, 7));
}

#[test]
fn quartal_root_and_neighbors() {
    let space = base_space();
    let c = PcChord::new([0, 2, 7, 9]).unwrap();
    let v = quartal_root(&c, 4).unwrap();
    assert_eq!(v.to_pc_chord().unwrap(), c);
    let ns = quartal_neighbors(&c, &space);
    assert_eq!(ns.len(), 8);
}

#[test]
fn quartal_orbit_labels() {
    assert_eq!(QuartalOrbit::Q555.to_string(), "[P4,P4,P4] [major]");
    assert_eq!(QuartalOrbit::Q565.to_string(), "[P4,A4,P4]");
    assert_eq!(QuartalOrbit::Q646.to_string(), "[A4,d4,A4] [augmented]");
}

#[test]
fn quartal_cycle_is_the_quintal_cycle_reversed() {
    let root = VoicedChord::new([48, 55, 62, 69]).unwrap();
    let q = quartal_inversion_cycle(&to_quartal(&root));
    let last = VoicedChord::new(q[3].pitches()).unwrap();
    let forward = music_comp_mt::quintal::inversion_cycle(&last);
    assert_eq!(forward[1].pitches, q[2].pitches());
    assert_eq!(forward[2].pitches, q[1].pitches());
    assert_eq!(forward[3].pitches, q[0].pitches());
}

#[test]
fn quartal_traversal_reverses_t1_for_every_root_voicing() {
    let root = VoicedChord::new([48, 55, 62, 69]).unwrap();
    assert!(t_quartal_reversal_equivalence(&to_quartal(&root)));
    let space = base_space();
    for c in space.chords() {
        let voiced = quartal_root(c, 4).unwrap();
        assert!(t_quartal_reversal_equivalence(&voiced));
    }
}

#[test]
fn low_register_quartal_cycle_keeps_the_l1_pattern() {
    let low = VoicedChord::new([24, 31, 38, 45]).unwrap();
    let q = to_quartal(&low);
    assert_eq!(quartal_l1_distances(&q), [12, 12, 12, 36]);
    assert!(t_quartal_reversal_equivalence(&q));
    let cycle = quartal_inversion_cycle(&q);
    assert!(cycle[3].0.pitches[0] >= 12);
}

use music_comp_mt::quartal::{pc_chord_to_quartal_voiced, verify_quartal_fiber_classes, verify_quartal_universal_l1_law};
use music_comp_mt::quintal::{classify_orbit, BaseSpace, Orbit, PcChord};

#[test]
fn helper_round_trips_q777() {
    let pc = PcChord::new([0, 2, 7, 9]).unwrap();
    let qvc = pc_chord_to_quartal_voiced(&pc).unwrap();
    assert_eq!(qvc.inner().to_pc_chord().unwrap(), pc);
    assert_eq!(classify_orbit(&pc), Some(Orbit::Q777));
}

#[test]
fn quartal_universal_l1_law_holds_on_base_space() {
    let space = BaseSpace::new();
    assert_eq!(verify_quartal_universal_l1_law(&space), Ok(()));
}

#[test]
fn quartal_fiber_classes_cover_all_orbits() {
    let space = BaseSpace::new();
    assert_eq!(verify_quartal_fiber_classes(&space).len(), 14);
}

#[test]
fn both_perspectives_give_the_same_fiber_classes() {
    let space = BaseSpace::new();
    assert_eq!(verify_quartal_fiber_classes(&space), music_comp_mt::quintal::verify_fiber_classes(&space));
}

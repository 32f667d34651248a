use music_comp_mt::counterpoint::check_first_species;
use music_comp_mt::note::PitchSymbol::{A, C, Cs, D, Db, E, F, Fs, G};
use music_comp_mt::note::{Note, Pitch, PitchSymbol};

fn n(p: PitchSymbol, octave: u8) -> Note {
    Note::new(Pitch::from(p), octave)
}

#[test]
fn consonant_line_is_valid() {
    let cf = [n(C, 4), n(D, 4), n(E, 4), n(C, 4)];
    let cp = [n(G, 4), n(F, 4), n(G, 4), n(C, 5)];
    let r = check_first_species(&cf, &cp);
    assert!(r.valid);
    assert!(r.violations.is_empty());
}

#[test]
fn parallel_fifths_are_reported() {
    let cf = [n(C, 4), n(D, 4)];
    let cp = [n(G, 4), n(A, 4)];
    let r = check_first_species(&cf, &cp);
    assert!(!r.valid);
    assert_eq!(r.violations.len(), 1);
    assert_eq!(r.violations[0].position, 1);
    assert_eq!(r.violations[0].rule, "parallel_perfect");
    assert_eq!(r.violations[0].description, "Parallel perfect consonance (ic 7) at positions 0-1");
}

#[test]
fn dissonant_opening_is_reported_twice() {
    let r = check_first_species(&[n(C, 4)], &[n(D, 4)]);
    assert!(!r.valid);
    assert_eq!(r.violations.len(), 2);
    assert_eq!(r.violations[0].rule, "dissonance");
    assert_eq!(r.violations[0].description, "Dissonant interval (ic 2) at position 0");
    assert_eq!(r.violations[1].rule, "opening");
    assert_eq!(r.violations[1].description, "Opening interval (ic 2) must be a perfect consonance");
}

#[test]
fn voice_crossing_and_closing() {
    let cf = [n(C, 4), n(E, 4)];
    let cp = [n(C, 5), n(D, 4)];
    let r = check_first_species(&cf, &cp);
    let rules: Vec<&str> = r.violations.iter().map(|v| v.rule.as_str()).collect();
    assert_eq!(rules, vec!["dissonance", "voice_crossing", "closing"]);
    assert_eq!(r.violations[2].description, "Closing interval (ic 2) must be a perfect consonance");
}

#[test]
fn empty_voices_are_valid() {
    let r = check_first_species(&[], &[n(C, 4)]);
    assert!(r.valid);
    assert!(r.violations.is_empty());
}

#[test]
fn fourth_is_consonant_only_with_counterpoint_above() {
    let above = check_first_species(&[n(C, 4)], &[n(F, 4)]);
    assert!(above.valid);
    let below = check_first_species(&[n(C, 4)], &[n(G, 3)]);
    let rules: Vec<&str> = below.violations.iter().map(|v| v.rule.as_str()).collect();
    assert_eq!(rules, vec!["dissonance", "opening"]);
    assert_eq!(below.violations[0].description, "Dissonant interval (ic 5) at position 0");
}

#[test]
fn wide_intervals_reduce_modulo_twelve() {
    let r = check_first_species(&[n(C, 0)], &[n(C, 30)]);
    assert!(r.valid);
}

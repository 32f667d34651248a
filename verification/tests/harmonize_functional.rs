use music_comp_mt::harmonize::{classify_trajectory, match_functional_pathways, Harmonization, Trajectory};
use music_comp_mt::quintal::{classify_orbit, quintal_root, BaseSpace, Orbit, Pathway, VoicedChord};

fn make_harmonization(pitches_list: &[[u8; 4]]) -> Harmonization {
    Harmonization {
        chords: pitches_list.iter().map(|p| VoicedChord { pitches: *p }).collect(),
        per_step_movements: vec![0; pitches_list.len().saturating_sub(1)],
        total_movement: 0,
    }
}

fn find_chord_in_orbit(space: &BaseSpace, target_orbit: Orbit) -> [u8; 4] {
    for pc in space.chords() {
        if classify_orbit(pc) == Some(target_orbit) {
            return quintal_root(pc, 4).unwrap().pitches;
        }
    }
    panic!("no chord found in orbit {:?}", target_orbit);
}

#[test]
fn test_trajectory_ascent() {
    let space = BaseSpace::new();
    let h = make_harmonization(&[
        find_chord_in_orbit(&space, Orbit::Q867),
        find_chord_in_orbit(&space, Orbit::Q776),
        find_chord_in_orbit(&space, Orbit::Q877),
        find_chord_in_orbit(&space, Orbit::Q777),
    ]);
    assert_eq!(classify_trajectory(&h), Trajectory::Ascent);
}

#[test]
fn test_trajectory_descent() {
    let space = BaseSpace::new();
    let h = make_harmonization(&[
        find_chord_in_orbit(&space, Orbit::Q777),
        find_chord_in_orbit(&space, Orbit::Q877),
        find_chord_in_orbit(&space, Orbit::Q776),
        find_chord_in_orbit(&space, Orbit::Q867),
    ]);
    assert_eq!(classify_trajectory(&h), Trajectory::Descent);
}

#[test]
fn test_trajectory_traverse() {
    let space = BaseSpace::new();
    let mut degree_6_chords: Vec<[u8; 4]> = Vec::new();
    for pc in space.chords() {
        if classify_orbit(pc) == Some(Orbit::Q877) {
            degree_6_chords.push(quintal_root(pc, 4).unwrap().pitches);
            if degree_6_chords.len() == 3 {
                break;
            }
        }
    }
    let h = make_harmonization(&degree_6_chords);
    assert_eq!(classify_trajectory(&h), Trajectory::Traverse);
}

#[test]
fn test_trajectory_mixed() {
    let space = BaseSpace::new();
    let h = make_harmonization(&[
        find_chord_in_orbit(&space, Orbit::Q877),
        find_chord_in_orbit(&space, Orbit::Q867),
        find_chord_in_orbit(&space, Orbit::Q777),
    ]);
    assert_eq!(classify_trajectory(&h), Trajectory::Mixed);
}

#[test]
fn test_match_cadence() {
    let space = BaseSpace::new();
    let h = make_harmonization(&[
        find_chord_in_orbit(&space, Orbit::Q686),
        find_chord_in_orbit(&space, Orbit::Q786),
        find_chord_in_orbit(&space, Orbit::Q777),
    ]);
    let matches = match_functional_pathways(&h);
    println!("cadence matches: {:?}", matches);
    assert_eq!(matches.len(), 1);
    assert_eq!(matches[0].pathway, Pathway::Cadence);
    assert_eq!(matches[0].start_position, 0);
    assert_eq!(matches[0].end_position, 2);
}

#[test]
fn test_match_no_pathway() {
    let space = BaseSpace::new();
    let h = make_harmonization(&[
        find_chord_in_orbit(&space, Orbit::Q767),
        find_chord_in_orbit(&space, Orbit::Q868),
        find_chord_in_orbit(&space, Orbit::Q878),
    ]);
    let matches = match_functional_pathways(&h);
    assert!(matches.is_empty());
}

#[test]
fn match_departure_pathway() {
    let space = BaseSpace::new();
    let h = make_harmonization(&[
        find_chord_in_orbit(&space, Orbit::Q767),
        find_chord_in_orbit(&space, Orbit::Q777),
        find_chord_in_orbit(&space, Orbit::Q787),
        find_chord_in_orbit(&space, Orbit::Q786),
        find_chord_in_orbit(&space, Orbit::Q686),
    ]);
    let matches = match_functional_pathways(&h);
    assert_eq!(matches.len(), 1);
    assert_eq!(matches[0].pathway, Pathway::Departure);
    assert_eq!(matches[0].start_position, 1);
    assert_eq!(matches[0].end_position, 4);
}

#[test]
fn trajectory_names() {
    assert_eq!(Trajectory::Ascent.to_string(), "Ascent");
    assert_eq!(Trajectory::Mixed.to_string(), "Mixed");
}

use music_comp_mt::quintal::{
    all_distances_from, center, chord_scale, geodesic_profile, classify_all, classify_orbit, count_geodesics, diameter,
    distance, distances_and_geodesic_counts, eccentricity, enumerate_all, fiber_class, geodesics,
    inversion_cycle, inversion_l1_distances, invert_transpose, transpose, is_adjacent, l1_distance, orbit, passing_chords, project,
    quintal_root, t1, t_minus1, verify_fiber_classes, verify_universal_l1_law, verify_all_orbits_self_dual, orbit_self_duality,
    reverse_interval_structure, IntervalStructure, BaseSpace, FiberClass,
    Orbit, PcChord, QuintalError, VoicedChord,
};

#[test]
fn base_space_has_228_chords_and_600_edges() {
    let space = BaseSpace::new();
    assert_eq!(space.len(), 228);
    assert!(!space.is_empty());
    let mut degree_sum = 0;
    let mut by_degree = [0usize; 9];
    for i in 0..space.len() {
        let d = space.neighbors_by_index(i).len();
        degree_sum += d;
        by_degree[d] += 1;
    }
    assert_eq!(degree_sum, 1200);
    assert_eq!(by_degree[4], 90);
    assert_eq!(by_degree[5], 48);
    assert_eq!(by_degree[6], 60);
    assert_eq!(by_degree[8], 30);
    assert_eq!(enumerate_all().len(), 228);
}

#[test]
fn readme_metric_space_example() {
    let space = BaseSpace::new();
    assert_eq!(diameter(&space), 8);
    assert_eq!(center(&space).len(), 54);
    let cgda = PcChord::new([0, 2, 7, 9]).unwrap();
    assert_eq!(classify_orbit(&cgda), Some(Orbit::Q777));
    let crossroads = PcChord::new([0, 2, 6, 8]).unwrap();
    assert_eq!(distance(&space, &cgda, &crossroads), Some(2));
}

#[test]
fn readme_inversion_cycle_example() {
    let root = VoicedChord::new([48, 55, 62, 69]).unwrap();
    let cs = chord_scale(&root);
    assert_eq!(cs.steps, [2, 5, 2, 3]);
    let cycle = inversion_cycle(&root);
    assert_eq!(cycle[1].pitches, [50, 57, 67, 72]);
    assert_eq!(t1(&root).pitches, [50, 57, 67, 72]);
    assert_eq!(t_minus1(&t1(&root)).pitches, root.pitches);
    assert_eq!(l1_distance(&root, &cycle[1]), 12);
    assert_eq!(inversion_l1_distances(&root), [12, 12, 12, 36]);
}

#[test]
fn universal_l1_law_and_fiber_classes() {
    let space = BaseSpace::new();
    assert!(verify_universal_l1_law(&space).is_ok());
    let classes = verify_fiber_classes(&space);
    assert_eq!(classes.len(), 14);
    let a = classes.iter().filter(|(_, c)| *c == FiberClass::ClassA).count();
    let b = classes.iter().filter(|(_, c)| *c == FiberClass::ClassB).count();
    assert_eq!((a, b), (11, 3));
    assert_eq!(fiber_class(&PcChord::new([0, 2, 7, 9]).unwrap()).is_some(), true);
}

#[test]
fn eccentricities_range_from_7_to_8() {
    let space = BaseSpace::new();
    let mut lo = u8::MAX;
    let mut hi = 0;
    for c in space.chords() {
        let e = eccentricity(&space, c).unwrap();
        lo = lo.min(e);
        hi = hi.max(e);
    }
    assert_eq!((lo, hi), (7, 8));
}

#[test]
fn distances_are_symmetric_and_zero_on_self() {
    let space = BaseSpace::new();
    let a = PcChord::new([0, 2, 7, 9]).unwrap();
    let b = PcChord::new([1, 3, 6, 8]).unwrap();
    assert_eq!(distance(&space, &a, &a), Some(0));
    assert_eq!(distance(&space, &a, &b), distance(&space, &b, &a));
    let all = all_distances_from(&space, &a);
    assert_eq!(all.len(), 228);
    assert!(all.iter().all(|(_, d)| *d <= 8));
}

#[test]
fn geodesics_agree_with_counts_and_distance() {
    let space = BaseSpace::new();
    let a = PcChord::new([0, 2, 7, 9]).unwrap();
    let b = PcChord::new([0, 2, 6, 8]).unwrap();
    let paths = geodesics(&space, &a, &b);
    assert_eq!(paths.len(), count_geodesics(&space, &a, &b));
    for p in &paths {
        assert_eq!(p.len(), 3);
        assert_eq!(p[0], a);
        assert_eq!(p[2], b);
        assert!(is_adjacent(&p[0], &p[1]) && is_adjacent(&p[1], &p[2]));
    }
    let passing = passing_chords(&space, &a, &b);
    assert!(passing.iter().all(|c| *c != a && *c != b));
    let dg = distances_and_geodesic_counts(&space, &a).unwrap();
    assert_eq!(dg.distances.len(), 228);
}

#[test]
fn most_geodesics_between_any_pair() {
    let space = BaseSpace::new();
    let mut best = 0u64;
    for c in space.chords() {
        let dg = distances_and_geodesic_counts(&space, c).unwrap();
        for (_, n) in &dg.geodesic_counts {
            best = best.max(*n);
        }
    }
    assert_eq!(best, 1136);
}

#[test]
fn orbits_partition_the_base_space() {
    let space = BaseSpace::new();
    let parts = classify_all(space.chords());
    let total: usize = parts.iter().map(|(_, v)| v.len()).sum();
    assert_eq!(total, 228);
    for (o, members) in &parts {
        assert_eq!(members.len(), o.size());
    }
    let cgda = PcChord::new([0, 2, 7, 9]).unwrap();
    assert_eq!(orbit(&cgda).len(), 12);
}

#[test]
fn chord_construction_errors() {
    assert_eq!(PcChord::new([0, 2, 7, 12]), Err(QuintalError::PitchClassOutOfRange(12)));
    assert_eq!(PcChord::new([0, 2, 2, 9]), Err(QuintalError::DuplicatePitchClasses));
    assert_eq!(PcChord::from_unsorted(&[0, 2, 7]), Err(QuintalError::WrongCardinality(3)));
    assert_eq!(VoicedChord::new([48, 48, 62, 69]), Err(QuintalError::NotAscending));
    assert_eq!(QuintalError::NoLegalStacking.to_string(), "no legal quintal stacking");
}

#[test]
fn quintal_root_stacks_fifths_from_the_octave() {
    let cgda = PcChord::new([0, 2, 7, 9]).unwrap();
    let v = quintal_root(&cgda, 4).unwrap();
    assert_eq!(v.pitches, [48, 55, 62, 69]);
    assert_eq!(project(&v).unwrap(), cgda);
    let not_quintal = PcChord::new([0, 1, 2, 3]).unwrap();
    assert_eq!(quintal_root(&not_quintal, 4), Err(QuintalError::NoLegalStacking));
}

#[test]
fn orbit_labels() {
    assert_eq!(Orbit::Q777.to_string(), "Q(7,7,7) [major]");
    assert_eq!(Orbit::Q676.to_string(), "Q(6,7,6) [diminished]");
    assert_eq!(Orbit::Q767.to_string(), "Q(7,6,7)");
}

#[test]
fn geodesic_profile_of_cgda() {
    let space = BaseSpace::new();
    let cgda = PcChord::new([0, 2, 7, 9]).unwrap();
    let p = geodesic_profile(&space, &cgda).unwrap();
    assert_eq!(p.source, cgda);
    assert_eq!(p.source_orbit, Orbit::Q777);
    assert_eq!(p.reachable_chords, 227);
    assert_eq!(p.per_chord.len(), 227);
    assert!(p.per_chord.iter().all(|e| e.distance >= 1));
    assert_eq!(p.eccentricity, eccentricity(&space, &cgda).unwrap());
    let total: usize = p.buckets.iter().map(|b| b.chords_at_d).sum();
    assert_eq!(total, 227);
    for (i, b) in p.buckets.iter().enumerate() {
        assert_eq!(b.distance as usize, i + 1);
        assert!(!b.max_chords.is_empty());
    }
    for w in p.per_chord.windows(2) {
        let (a, b) = (&w[0], &w[1]);
        assert!(a.distance < b.distance
            || (a.distance == b.distance && a.geodesic_count > b.geodesic_count)
            || (a.distance == b.distance && a.geodesic_count == b.geodesic_count && a.chord.pcs < b.chord.pcs));
    }
    let first = p.per_chord[0];
    assert_eq!(first.distance, 1);
    assert_eq!(first.geodesic_count, 1);
    let crossroads = PcChord::new([0, 2, 6, 8]).unwrap();
    let row = p.per_chord.iter().find(|e| e.chord == crossroads).unwrap();
    assert_eq!(row.distance, 2);
    assert_eq!(row.orbit, Orbit::Q686);
    assert_eq!(row.geodesic_count as usize, count_geodesics(&space, &cgda, &crossroads));
}

#[test]
fn geodesic_profile_of_missing_chord_is_none() {
    let space = BaseSpace::new();
    let c = PcChord::new([0, 1, 2, 3]).unwrap();
    assert!(geodesic_profile(&space, &c).is_none());
}

#[test]
fn orbit_is_invariant_under_transposition_and_inversion() {
    let space = BaseSpace::new();
    for c in space.chords() {
        let o = classify_orbit(c);
        assert!(o.is_some());
        for n in [0u8, 1, 5, 7, 11, 12, 19, 255] {
            assert_eq!(classify_orbit(&transpose(c, n)), o);
            assert_eq!(classify_orbit(&invert_transpose(c, n)), o);
        }
    }
}

#[test]
fn readme_all_orbits_are_self_dual() {
    let space = BaseSpace::new();
    assert!(verify_all_orbits_self_dual(&space));
    for o in Orbit::all().iter() {
        assert!(orbit_self_duality(o));
    }
    assert_eq!(
        reverse_interval_structure(&IntervalStructure(7, 8, 6)),
        IntervalStructure(6, 8, 7)
    );
}

#[test]
fn most_geodesics_from_cgda_is_298() {
    let space = BaseSpace::new();
    let cgda = PcChord::new([0, 2, 7, 9]).unwrap();
    let dg = distances_and_geodesic_counts(&space, &cgda).unwrap();
    let best = dg.geodesic_counts.iter().map(|(_, n)| *n).max().unwrap();
    assert_eq!(best, 298);
}

#[test]
fn four_t1_steps_transpose_up_an_octave() {
    let root = VoicedChord::new([48, 55, 62, 69]).unwrap();
    let four = t1(&t1(&t1(&t1(&root))));
    assert_eq!(four.pitches, [60, 67, 74, 81]);
    let back = t_minus1(&t1(&root));
    assert_eq!(back.pitches, root.pitches);
}

#[test]
fn high_register_t1_cycle_keeps_the_l1_pattern() {
    let high = VoicedChord::new([219, 226, 233, 240]).unwrap();
    assert_eq!(inversion_l1_distances(&high), [12, 12, 12, 36]);
}

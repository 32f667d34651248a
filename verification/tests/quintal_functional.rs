use music_comp_mt::quintal::FunctionalRegion::{Narrows, Plateau, Precipice, Saddle, Slope, Summit, Valley};
use music_comp_mt::quintal::{FunctionalRegion, Orbit, Pathway};
use std::collections::HashMap;

#[test]
fn test_all_14_orbits_map_to_regions() {
    let expected: Vec<(Orbit, FunctionalRegion)> = vec![
        (Orbit::Q777, Summit),
        (Orbit::Q787, Plateau),
        (Orbit::Q877, Plateau),
        (Orbit::Q786, Slope),
        (Orbit::Q776, Slope),
        (Orbit::Q876, Slope),
        (Orbit::Q867, Slope),
        (Orbit::Q767, Valley),
        (Orbit::Q868, Valley),
        (Orbit::Q878, Valley),
        (Orbit::Q686, Saddle),
        (Orbit::Q688, Precipice),
        (Orbit::Q788, Precipice),
        (Orbit::Q676, Narrows),
    ];
    assert_eq!(expected.len(), 14);
    for (orbit, region) in expected {
        assert_eq!(orbit.functional_region(), region, "{:?} should map to {:?}", orbit, region);
    }
}

#[test]
fn test_region_counts() {
    let mut counts = HashMap::new();
    for orbit in Orbit::all() {
        *counts.entry(orbit.functional_region()).or_insert(0) += 1;
    }
    assert_eq!(counts[&FunctionalRegion::Summit], 1);
    assert_eq!(counts[&FunctionalRegion::Plateau], 2);
    assert_eq!(counts[&FunctionalRegion::Slope], 4);
    assert_eq!(counts[&FunctionalRegion::Valley], 3);
    assert_eq!(counts[&FunctionalRegion::Saddle], 1);
    assert_eq!(counts[&FunctionalRegion::Precipice], 2);
    assert_eq!(counts[&FunctionalRegion::Narrows], 1);
}

#[test]
fn test_pathway_region_sequences() {
    assert_eq!(Pathway::Cadence.region_sequence(), &[Saddle, Slope, Summit]);
    assert_eq!(Pathway::Departure.region_sequence(), &[Summit, Plateau, Slope, Saddle]);
}

#[test]
fn test_pathway_all() {
    let all = Pathway::all();
    assert_eq!(all.len(), 2);
    assert_eq!(all[0], Pathway::Cadence);
    assert_eq!(all[1], Pathway::Departure);
}

#[test]
fn region_and_pathway_names() {
    assert_eq!(Summit.to_string(), "Summit");
    assert_eq!(Narrows.to_string(), "Narrows");
    assert_eq!(Pathway::Departure.to_string(), "Departure");
}

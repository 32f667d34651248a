//! Quintal chord types for the fiber bundle framework.

pub mod base_space;
pub mod bfs;
pub mod classification;
pub mod constructors;
pub mod display;
pub mod degree_laws;
pub mod distance;
pub mod duality;
pub mod error;
pub mod fiber;
pub mod functional;
pub mod geodesics;
pub mod geodesic_laws;
pub mod graph;
pub mod group;
pub mod metric;
pub mod modes;
pub mod orbit;
pub mod profile;
pub mod types;
pub mod verification;

pub use error::QuintalError;
pub use types::{FiberClass, IntervalStructure, PcChord, VoicedChord};
pub use fiber::{chord_scale, inversion_cycle, l1_distance, project, t1, t_minus1, ChordScale};
pub use base_space::{enumerate_all, is_adjacent, BaseSpace};
pub use distance::{all_distances_from, center, diameter, distance, eccentricity};
pub use geodesics::{count_geodesics, distances_and_geodesic_counts, geodesics, passing_chords, DistAndGeodesicCounts};
pub use profile::{geodesic_profile, GeodesicBucketTotals, GeodesicProfile, GeodesicProfileEntry};
pub use functional::{FunctionalRegion, Pathway};
pub use group::{invert, invert_transpose, orbit, transpose};
pub use orbit::{classify_all, classify_orbit, Orbit};
pub use duality::{orbit_self_duality, reverse_interval_structure, verify_all_orbits_self_dual};
pub use modes::{ModeError, OthMode, StepVocabularyCluster};
pub use constructors::quintal_root;
pub use crate::voice_leading::min_voiced_chord_l1;
pub use verification::{fiber_class, inversion_l1_distances, inversions_in_base, verify_fiber_classes, verify_universal_l1_law};
pub use display::{pc_to_note_name, render_chord_dashed, render_pcset_dashed};

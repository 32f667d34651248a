//! Quartal chord types: a dual perspective on the quintal fiber bundle.
//!
//! The quartal perspective reads the intervals of the same 228-chord base
//! space top-to-bottom as fourths, where the quintal perspective reads them
//! bottom-to-top as fifths.

pub mod constructors;
pub mod conversion;
pub mod duality;
pub mod error;
pub mod interval;
pub mod orbit;
pub mod types;
pub mod verification;
pub mod voicing;

pub use constructors::{
    from_stacked_fourths, from_stacked_fourths_voiced, pure_quartal_stack, quartal_neighbors,
    quartal_root,
};
pub use conversion::{pc_chord_quartal_intervals, to_quartal, to_quintal};
pub use duality::{quartal_reading, quintal_reading, t_quartal_reversal_equivalence};
pub use error::QuartalError;
pub use interval::{
    quartal_to_quintal_interval, quartal_to_quintal_structure, quintal_to_quartal_interval,
    quintal_to_quartal_structure,
};
pub use orbit::QuartalOrbit;
pub use types::{QuartalIntervalStructure, QuartalVoicedChord};
pub use verification::{
    pc_chord_to_quartal_voiced, verify_quartal_fiber_classes, verify_quartal_universal_l1_law,
};
pub use voicing::{quartal_inversion_cycle, quartal_l1_distances, t_quartal, t_quartal_reverse};
pub use crate::quintal::{pc_to_note_name, render_pcset_dashed};
pub use crate::quintal::{
    all_distances_from, center, count_geodesics, diameter, distance, eccentricity,
    enumerate_all, geodesics, is_adjacent, orbit_self_duality, passing_chords,
    reverse_interval_structure, verify_all_orbits_self_dual, BaseSpace, FiberClass, PcChord,
};
pub use crate::voice_leading::min_voiced_chord_l1;

use vstd::prelude::*;

verus! {

/// The shared 228-chord base space, the same as in the quintal perspective.
pub fn base_space() -> (r: BaseSpace)
    ensures
        crate::quintal::base_space::base_space_wf(r.chords_view(), r.adj_view()),
{
    BaseSpace::new()
}

} // verus!

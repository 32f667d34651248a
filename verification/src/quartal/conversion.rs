use vstd::prelude::*;

use super::interval::{lemma_legal_correspondence, quintal_to_quartal_structure, reverse_complement};
use super::types::{QuartalIntervalStructure, QuartalVoicedChord};
use crate::quintal::types::{lemma_first_legal_bounds, PcChord, VoicedChord};

verus! {

/// Reinterpret a quintal [`VoicedChord`] as a quartal chord.
pub fn to_quartal(chord: &VoicedChord) -> (r: QuartalVoicedChord)
    ensures
        r == QuartalVoicedChord(*chord),
{
    QuartalVoicedChord(*chord)
}

/// Extract the quintal [`VoicedChord`] from a quartal wrapper.
pub fn to_quintal(chord: &QuartalVoicedChord) -> (r: VoicedChord)
    ensures
        r == chord.0,
{
    chord.0
}

/// The quartal reading of a chord's legal quintal interval structure, if it has one.
pub open spec fn quartal_intervals_spec(chord: PcChord) -> Option<QuartalIntervalStructure> {
    match chord.interval_structure_spec() {
        Some(is) => Some(reverse_complement(is)),
        None => None,
    }
}

/// Read a [`PcChord`]'s intervals as quartal (top-to-bottom, complemented);
/// `None` if the chord has no legal quintal interval structure.
pub fn pc_chord_quartal_intervals(chord: &PcChord) -> (r: Option<QuartalIntervalStructure>)
    requires
        chord.in_range(),
    ensures
        r == quartal_intervals_spec(*chord),
        r matches Some(q) ==> q.legal_spec(),
{
    proof {
        lemma_first_legal_bounds(chord.pcs, 0);
    }
    match chord.interval_structure() {
        Some(is) => {
            proof {
                lemma_legal_correspondence(is);
            }
            Some(quintal_to_quartal_structure(&is))
        },
        None => None,
    }
}

} // verus!

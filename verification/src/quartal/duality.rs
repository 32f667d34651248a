//! Quartal-perspective readings of a voiced chord.

use vstd::prelude::*;

use super::interval::reverse_complement;
use super::types::{gaps_within_octave, QuartalIntervalStructure, QuartalVoicedChord};
use super::voicing::{
    lemma_quartal_cycle_reverses, lemma_quartal_cycle_steps, quartal_cycle_spec, quartal_inversion_cycle,
};
use crate::quintal::fiber::{lemma_t_minus1_ascending, t1, t1_spec};
use crate::quintal::types::{
    ascending4, distinct4, mod12_4, strictly_ascending4, voicing_structure, IntervalStructure,
};

verus! {

/// Read a quartal voicing's intervals top-to-bottom, complemented to
/// fourths: the natural quartal reading.
pub fn quartal_reading(chord: &QuartalVoicedChord) -> (r: QuartalIntervalStructure)
    requires
        ascending4(chord.0.pitches),
        gaps_within_octave(chord.0.pitches),
    ensures
        r == reverse_complement(voicing_structure(chord.0.pitches)),
{
    chord.quartal_interval_structure()
}

/// Read a quartal voicing's intervals bottom-to-top: the dual (quintal) reading.
pub fn quintal_reading(chord: &QuartalVoicedChord) -> (r: IntervalStructure)
    requires
        ascending4(chord.0.pitches),
    ensures
        r == voicing_structure(chord.0.pitches),
{
    chord.0.interval_structure()
}

/// T1 carries each voicing of the quartal cycle of `p` back to the one
/// before it: the quartal traversal walks the T1 fiber in reverse.
pub open spec fn quartal_cycle_reversed(p: [u8; 4]) -> bool {
    let c = quartal_cycle_spec(p);
    &&& t1_spec(c[1]) == c[0]
    &&& t1_spec(c[2]) == c[1]
    &&& t1_spec(c[3]) == c[2]
}

/// Check that the quartal traversal `t_quartal` visits the fiber of `t1`
/// in reversed order: applying T1 to each step of the quartal cycle gives
/// back the step before it. The check holds for every voicing it accepts.
pub fn t_quartal_reversal_equivalence(chord: &QuartalVoicedChord) -> (r: bool)
    requires
        strictly_ascending4(chord.0.pitches),
        distinct4(mod12_4(chord.0.pitches)),
        chord.0.pitches[0] >= 12,
    ensures
        r == quartal_cycle_reversed(chord.0.pitches),
        r,
{
    let ghost p = chord.0.pitches;
    proof {
        lemma_quartal_cycle_reverses(p);
        lemma_quartal_cycle_steps(p);
        lemma_t_minus1_ascending(p);
        lemma_t_minus1_ascending(quartal_cycle_spec(p)[1]);
        lemma_t_minus1_ascending(quartal_cycle_spec(p)[2]);
    }
    let cycle = quartal_inversion_cycle(chord);
    let back1 = t1(&cycle[1].0);
    let back2 = t1(&cycle[2].0);
    let back3 = t1(&cycle[3].0);
    let mut same = true;
    let mut i: usize = 0;
    while i < 4
        invariant
            0 <= i <= 4,
            same <==> forall|k: int|
                0 <= k < i ==> back1.pitches[k] == cycle[0].0.pitches[k]
                    && back2.pitches[k] == cycle[1].0.pitches[k]
                    && back3.pitches[k] == cycle[2].0.pitches[k],
        decreases 4 - i,
    {
        if back1.pitches[i] != cycle[0].0.pitches[i] || back2.pitches[i] != cycle[1].0.pitches[i]
            || back3.pitches[i] != cycle[2].0.pitches[i] {
            same = false;
        }
        i += 1;
    }
    proof {
        assert(same ==> back1.pitches =~= cycle[0].0.pitches);
        assert(same ==> back2.pitches =~= cycle[1].0.pitches);
        assert(same ==> back3.pitches =~= cycle[2].0.pitches);
    }
    same
}

} // verus!

use vstd::prelude::*;

use super::error::{quartal_from_quintal, QuartalError};
use super::interval::{quintal_to_quartal_structure, reverse_complement};
use crate::quintal::types::{
    ascending4, pc_chord_new_spec, mod12_4, strictly_ascending4, voicing_structure,
    IntervalStructure, PcChord, VoicedChord,
};
use crate::quintal::QuintalError;

verus! {

/// A quartal interval structure: three intervals read top-to-bottom through
/// a four-note chord. Each component should be in {4, 5, 6} for a legal
/// quartal structure (the inversional complements of the quintal {6, 7, 8}).
#[derive(Debug, Clone, Copy, PartialEq, Eq, Structural, Hash, PartialOrd, Ord)]
pub struct QuartalIntervalStructure(pub u8, pub u8, pub u8);

impl QuartalIntervalStructure {
    /// Each component lies in {4, 5, 6}.
    pub open spec fn legal_spec(self) -> bool {
        4 <= self.0 <= 6 && 4 <= self.1 <= 6 && 4 <= self.2 <= 6
    }

    /// Create a new quartal interval structure from three interval values.
    pub fn new(a: u8, b: u8, c: u8) -> (r: Self)
        ensures
            r == QuartalIntervalStructure(a, b, c),
    {
        QuartalIntervalStructure(a, b, c)
    }

    /// Returns `true` if each component is in {4, 5, 6}.
    pub fn is_legal(&self) -> (r: bool)
        ensures
            r == self.legal_spec(),
    {
        4 <= self.0 && self.0 <= 6 && 4 <= self.1 && self.1 <= 6 && 4 <= self.2 && self.2 <= 6
    }

    /// Returns the three intervals as an array.
    pub fn intervals(&self) -> (r: [u8; 3])
        ensures
            r@ == seq![self.0, self.1, self.2],
    {
        let r = [self.0, self.1, self.2];
        assert(r@ =~= seq![self.0, self.1, self.2]);
        r
    }
}

/// A quartal perspective on a four-note voiced chord: a wrapper around a
/// [`VoicedChord`] that reads its intervals top-to-bottom as fourths.
#[derive(Debug, Clone, Copy, Eq, Hash)]
pub struct QuartalVoicedChord(pub VoicedChord);

/// The gaps between adjacent voices are at most an octave.
pub open spec fn gaps_within_octave(p: [u8; 4]) -> bool {
    p[1] - p[0] <= 12 && p[2] - p[1] <= 12 && p[3] - p[2] <= 12
}

impl QuartalVoicedChord {
    /// Create a new quartal voiced chord from four strictly ascending MIDI pitches.
    pub fn new(pitches: [u8; 4]) -> (r: Result<Self, QuartalError>)
        ensures
            strictly_ascending4(pitches) ==> r == Ok::<QuartalVoicedChord, QuartalError>(
                QuartalVoicedChord(VoicedChord { pitches }),
            ),
            !strictly_ascending4(pitches) ==> r == Err::<QuartalVoicedChord, QuartalError>(
                QuartalError::NotAscending,
            ),
    {
        match VoicedChord::new(pitches) {
            Ok(vc) => Ok(QuartalVoicedChord(vc)),
            Err(e) => Err(QuartalError::from(e)),
        }
    }

    /// The four MIDI pitches in ascending order.
    pub fn pitches(&self) -> (r: [u8; 4])
        ensures
            r == self.0.pitches,
    {
        self.0.pitches
    }

    /// The quartal interval structure: the intervals read top-to-bottom and
    /// complemented to fourths.
    pub fn quartal_interval_structure(&self) -> (r: QuartalIntervalStructure)
        requires
            ascending4(self.0.pitches),
            gaps_within_octave(self.0.pitches),
        ensures
            r == reverse_complement(voicing_structure(self.0.pitches)),
    {
        quintal_to_quartal_structure(&self.0.interval_structure())
    }

    /// The quintal interval structure of the inner chord (bottom-to-top fifths reading).
    pub fn quintal_interval_structure(&self) -> (r: IntervalStructure)
        requires
            ascending4(self.0.pitches),
        ensures
            r == voicing_structure(self.0.pitches),
    {
        self.0.interval_structure()
    }

    /// Convert to a pitch-class chord by reducing each pitch mod 12.
    pub fn to_pc_chord(&self) -> (r: Result<PcChord, QuartalError>)
        ensures
            ({
                let q = self.0.to_pc_result();
                &&& q is Ok ==> r == Ok::<PcChord, QuartalError>(q->Ok_0)
                &&& q is Err ==> r == Err::<PcChord, QuartalError>(quartal_from_quintal(q->Err_0))
            }),
    {
        match self.0.to_pc_chord() {
            Ok(pc) => Ok(pc),
            Err(e) => Err(QuartalError::from(e)),
        }
    }

    /// The inner [`VoicedChord`].
    pub fn inner(&self) -> (r: &VoicedChord)
        ensures
            *r == self.0,
    {
        &self.0
    }

    /// The inner [`VoicedChord`], as used by the quintal operations.
    pub fn as_voiced(&self) -> (r: &VoicedChord)
        ensures
            *r == self.0,
    {
        &self.0
    }
}

impl PartialEq for QuartalVoicedChord {
    fn eq(&self, other: &Self) -> (r: bool) {
        self.0 == other.0
    }
}

impl vstd::std_specs::cmp::PartialEqSpecImpl for QuartalVoicedChord {
    open spec fn obeys_eq_spec() -> bool {
        true
    }

    open spec fn eq_spec(&self, other: &Self) -> bool {
        self.0.pitches == other.0.pitches
    }
}

} // verus!

use vstd::prelude::*;

use super::types::QuartalIntervalStructure;
use crate::quintal::types::IntervalStructure;

verus! {

/// The complement of an interval modulo 12: `(12 - s) % 12`.
pub open spec fn complement(s: u8) -> u8 {
    ((12 - s) % 12) as u8
}

/// A quintal structure read top-to-bottom and complemented: `(i1, i2, i3)`
/// becomes `(12 - i3, 12 - i2, 12 - i1)`, each modulo 12.
pub open spec fn reverse_complement(qs: IntervalStructure) -> QuartalIntervalStructure {
    QuartalIntervalStructure(complement(qs.2), complement(qs.1), complement(qs.0))
}

/// A quartal structure read bottom-to-top and complemented back to fifths.
pub open spec fn reverse_complement_back(qs: QuartalIntervalStructure) -> IntervalStructure {
    IntervalStructure(complement(qs.2), complement(qs.1), complement(qs.0))
}

/// Complement an interval mod 12: a perfect fifth (7) becomes a perfect
/// fourth (5), an augmented fifth (8) a diminished fourth (4), and the
/// tritone (6) stays.
pub fn quintal_to_quartal_interval(semitones: u8) -> (r: u8)
    requires
        semitones <= 12,
    ensures
        r == complement(semitones),
{
    (12 - semitones) % 12
}

/// Complement an interval mod 12 (quartal to quintal direction); the same
/// map as [`quintal_to_quartal_interval`], which is an involution.
pub fn quartal_to_quintal_interval(semitones: u8) -> (r: u8)
    requires
        semitones <= 12,
    ensures
        r == complement(semitones),
{
    (12 - semitones) % 12
}

/// Convert a quintal interval structure to quartal: reverse the order and
/// complement each interval.
pub fn quintal_to_quartal_structure(qs: &IntervalStructure) -> (r: QuartalIntervalStructure)
    requires
        qs.0 <= 12 && qs.1 <= 12 && qs.2 <= 12,
    ensures
        r == reverse_complement(*qs),
{
    QuartalIntervalStructure((12 - qs.2) % 12, (12 - qs.1) % 12, (12 - qs.0) % 12)
}

/// Convert a quartal interval structure to quintal: reverse the order and
/// complement each interval.
pub fn quartal_to_quintal_structure(qs: &QuartalIntervalStructure) -> (r: IntervalStructure)
    requires
        qs.0 <= 12 && qs.1 <= 12 && qs.2 <= 12,
    ensures
        r == reverse_complement_back(*qs),
{
    IntervalStructure((12 - qs.2) % 12, (12 - qs.1) % 12, (12 - qs.0) % 12)
}

/// Interval complementation is an involution on the intervals below an octave.
pub proof fn lemma_complement_involution(s: u8)
    requires
        s <= 11,
    ensures
        complement(complement(s)) == s,
{
}

/// Reversal with complementation is an involution, in both directions, on
/// structures whose intervals lie below an octave.
pub proof fn lemma_structure_involution(q: IntervalStructure, r: QuartalIntervalStructure)
    requires
        q.0 <= 11 && q.1 <= 11 && q.2 <= 11,
        r.0 <= 11 && r.1 <= 11 && r.2 <= 11,
    ensures
        reverse_complement_back(reverse_complement(q)) == q,
        reverse_complement(reverse_complement_back(r)) == r,
{
    lemma_complement_involution(q.0);
    lemma_complement_involution(q.1);
    lemma_complement_involution(q.2);
    lemma_complement_involution(r.0);
    lemma_complement_involution(r.1);
    lemma_complement_involution(r.2);
}

/// A quintal structure is legal (all intervals in {6, 7, 8}) exactly when
/// its quartal reading is legal (all intervals in {4, 5, 6}).
pub proof fn lemma_legal_correspondence(q: IntervalStructure)
    requires
        q.0 <= 12 && q.1 <= 12 && q.2 <= 12,
    ensures
        q.legal_spec() <==> reverse_complement(q).legal_spec(),
{
}

} // verus!

//! OTH mode analysis: step sequences and their cyclic rotations, the
//! step-vocabulary clusters, and the errors of mode verification.

use vstd::prelude::*;

use super::orbit::{orbit_text, push_orbit, Orbit};
use crate::text::{dec, push_decimal, push_str};

verus! {

/// The text of a four-step array: `[a, b, c, d]`.
pub open spec fn steps_text(a: [u8; 4]) -> Seq<char> {
    "["@ + dec(a[0] as nat) + ", "@ + dec(a[1] as nat) + ", "@ + dec(a[2] as nat) + ", "@ + dec(
        a[3] as nat,
    ) + "]"@
}

/// Append the text of a four-step array.
pub fn push_steps(s: &mut String, a: [u8; 4])
    ensures
        final(s)@ == old(s)@ + steps_text(a),
{
    push_str(s, "[");
    push_decimal(s, a[0] as u64);
    push_str(s, ", ");
    push_decimal(s, a[1] as u64);
    push_str(s, ", ");
    push_decimal(s, a[2] as u64);
    push_str(s, ", ");
    push_decimal(s, a[3] as u64);
    push_str(s, "]");
    assert(s@ =~= old(s)@ + steps_text(a));
}

/// An error arising from OTH mode computation or verification.
#[derive(Debug, Clone, PartialEq, Eq)]
pub enum ModeError {
    /// The fiber-mode connection failed for a specific orbit and rotation.
    FiberModeMismatch { orbit: Orbit, rotation: u8, expected: [u8; 4], actual: [u8; 4] },
    /// Two distinct orbits share the same step-size multiset.
    MultisetCollision { a: Orbit, b: Orbit, multiset: [u8; 4] },
    /// Step sequence does not sum to 12.
    InvalidStepSum { orbit: Orbit, steps: [u8; 4], sum: u8 },
}

/// The message of a mode error.
pub open spec fn mode_error_text(e: ModeError) -> Seq<char> {
    match e {
        ModeError::FiberModeMismatch { orbit, rotation, expected, actual } => "fiber-mode mismatch for "@
            + orbit_text(orbit) + " rotation "@ + dec(rotation as nat) + ": expected "@
            + steps_text(expected) + ", got "@ + steps_text(actual),
        ModeError::MultisetCollision { a, b, multiset } => "multiset collision between "@
            + orbit_text(a) + " and "@ + orbit_text(b) + ": "@ + steps_text(multiset),
        ModeError::InvalidStepSum { orbit, steps, sum } => "step sequence "@ + steps_text(steps)
            + " for "@ + orbit_text(orbit) + " sums to "@ + dec(sum as nat) + " (expected 12)"@,
    }
}

impl ModeError {
    /// The human-readable message of the error.
    pub fn to_string(&self) -> (r: String)
        ensures
            r@ == mode_error_text(*self),
    {
        let mut s = String::new();
        match self {
            ModeError::FiberModeMismatch { orbit, rotation, expected, actual } => {
                push_str(&mut s, "fiber-mode mismatch for ");
                push_orbit(&mut s, *orbit);
                push_str(&mut s, " rotation ");
                push_decimal(&mut s, *rotation as u64);
                push_str(&mut s, ": expected ");
                push_steps(&mut s, *expected);
                push_str(&mut s, ", got ");
                push_steps(&mut s, *actual);
            },
            ModeError::MultisetCollision { a, b, multiset } => {
                push_str(&mut s, "multiset collision between ");
                push_orbit(&mut s, *a);
                push_str(&mut s, " and ");
                push_orbit(&mut s, *b);
                push_str(&mut s, ": ");
                push_steps(&mut s, *multiset);
            },
            ModeError::InvalidStepSum { orbit, steps, sum } => {
                push_str(&mut s, "step sequence ");
                push_steps(&mut s, *steps);
                push_str(&mut s, " for ");
                push_orbit(&mut s, *orbit);
                push_str(&mut s, " sums to ");
                push_decimal(&mut s, *sum as u64);
                push_str(&mut s, " (expected 12)");
            },
        }
        assert(s@ =~= mode_error_text(*self));
        s
    }
}

/// Provisional step-vocabulary cluster for an orbit.
///
/// These clusters are descriptive groupings by which step sizes occur in an
/// orbit's step-size multiset; they are observations, not proven categories
/// (the one established scalar relationship is Summit [7,7,7] with the
/// pentatonic major).
#[derive(Debug, Clone, Copy, PartialEq, Eq, Structural, Hash, PartialOrd, Ord)]
#[non_exhaustive]
pub enum StepVocabularyCluster {
    /// Steps from {2, 3, 4, 5}, no semitone (1) or tritone step (6).
    NoSemitoneNoTritone,
    /// Step vocabulary includes 1 (semitone) but not 6 (tritone step).
    ContainsSemitone,
    /// Step vocabulary within {2, 4}: all steps are even, no semitones.
    EvenStepsOnly,
    /// Step vocabulary includes 6 (tritone step).
    ContainsTritoneStep,
}

/// The display name of a cluster.
pub open spec fn cluster_text(c: StepVocabularyCluster) -> Seq<char> {
    match c {
        StepVocabularyCluster::NoSemitoneNoTritone => "No Semitone, No Tritone"@,
        StepVocabularyCluster::ContainsSemitone => "Contains Semitone"@,
        StepVocabularyCluster::EvenStepsOnly => "Even Steps Only"@,
        StepVocabularyCluster::ContainsTritoneStep => "Contains Tritone Step"@,
    }
}

impl StepVocabularyCluster {
    /// The display name of the cluster.
    pub fn to_string(&self) -> (r: String)
        ensures
            r@ == cluster_text(*self),
    {
        let mut s = String::new();
        match self {
            StepVocabularyCluster::NoSemitoneNoTritone => push_str(&mut s, "No Semitone, No Tritone"),
            StepVocabularyCluster::ContainsSemitone => push_str(&mut s, "Contains Semitone"),
            StepVocabularyCluster::EvenStepsOnly => push_str(&mut s, "Even Steps Only"),
            StepVocabularyCluster::ContainsTritoneStep => push_str(&mut s, "Contains Tritone Step"),
        }
        assert(s@ =~= cluster_text(*self));
        s
    }
}

/// A mode of an OTH orbit: a cyclic rotation of the chord-scale step sequence.
///
/// `rotation` (0-3) says which pitch class of the representative chord-scale
/// starts the mode. The opening interval is the first step and is not stored
/// on its own.
#[derive(Debug, Clone, Copy, PartialEq, Eq, Hash, PartialOrd, Ord)]
pub struct OthMode {
    orbit: Orbit,
    rotation: u8,
    steps: [u8; 4],
    pcs_from_c: [u8; 4],
}

impl OthMode {
    /// The orbit of the mode.
    pub closed spec fn orbit_of(&self) -> Orbit {
        self.orbit
    }

    /// The rotation of the mode.
    pub closed spec fn rotation_of(&self) -> u8 {
        self.rotation
    }

    /// The step sequence of the mode.
    pub closed spec fn steps_of(&self) -> [u8; 4] {
        self.steps
    }

    /// The pitch classes of the mode, measured from C.
    pub closed spec fn pcs_of(&self) -> [u8; 4] {
        self.pcs_from_c
    }

    /// Create a new OTH mode.
    pub fn new(orbit: Orbit, rotation: u8, steps: [u8; 4], pcs_from_c: [u8; 4]) -> (r: Self)
        ensures
            r.orbit_of() == orbit,
            r.rotation_of() == rotation,
            r.steps_of() == steps,
            r.pcs_of() == pcs_from_c,
    {
        OthMode { orbit, rotation, steps, pcs_from_c }
    }

    /// The orbit of the mode.
    pub fn orbit(&self) -> (r: Orbit)
        ensures
            r == self.orbit_of(),
    {
        self.orbit
    }

    /// The rotation of the mode.
    pub fn rotation(&self) -> (r: u8)
        ensures
            r == self.rotation_of(),
    {
        self.rotation
    }

    /// The step sequence of the mode.
    pub fn steps(&self) -> (r: [u8; 4])
        ensures
            r == self.steps_of(),
    {
        self.steps
    }

    /// The pitch classes of the mode, measured from C.
    pub fn pcs_from_c(&self) -> (r: [u8; 4])
        ensures
            r == self.pcs_of(),
    {
        self.pcs_from_c
    }

    /// Opening interval: the first step.
    pub fn opening_interval(&self) -> (r: u8)
        ensures
            r == self.steps_of()[0],
    {
        self.steps[0]
    }

    /// The label of the mode: the orbit, `M` with the one-based rotation, and
    /// the steps, e.g. `Q(7,7,7) [major] M1 [2, 2, 3, 5]`.
    pub fn to_string(&self) -> (r: String)
        requires
            self.rotation_of() < 255,
        ensures
            r@ == orbit_text(self.orbit_of()) + " M"@ + dec((self.rotation_of() + 1) as nat) + " "@
                + steps_text(self.steps_of()),
    {
        let mut s = String::new();
        push_orbit(&mut s, self.orbit);
        push_str(&mut s, " M");
        push_decimal(&mut s, self.rotation as u64 + 1);
        push_str(&mut s, " ");
        push_steps(&mut s, self.steps);
        s
    }
}

} // verus!

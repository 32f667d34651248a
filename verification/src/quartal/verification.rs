//! Quartal-direction checks of the structural laws: the L1 pattern of the
//! quartal inversion cycle and the fiber classes reached through it.

use vstd::prelude::*;

use super::types::QuartalVoicedChord;
use super::voicing::{
    above_36, lemma_quartal_cycle_reverses, lemma_quartal_cycle_steps, lemma_quartal_universal_l1_law,
    quartal_cycle_spec, quartal_inversion_cycle, quartal_l1_distances,
};
use crate::quintal::base_space::{chord_in_base, BaseSpace};
use crate::quintal::fiber::{inversion_cycle_spec, l1_spec, lemma_t_minus1_ascending, t1_spec};
use crate::quintal::orbit::{all_orbits, classify_orbit, classify_spec, Orbit};
use crate::quintal::types::{
    ascending4, distinct4, mod12_4, strictly_ascending4, voicing_structure, FiberClass, PcChord,
    VoicedChord,
};
use crate::quintal::verification::{
    fiber_class_spec, first_class, legal_inversions, lemma_base_chord_voiced, lemma_t1_four_steps,
    orbit_classes, pc_chord_to_voiced, to_voiced_spec, voices_chord,
};

verus! {

/// The default quartal voicing of a chord: its default quintal voicing
/// (legal quintal structure stacked from C3 plus one of its pitch classes)
/// read in the quartal perspective.
pub open spec fn to_quartal_voiced_spec(chord: PcChord) -> Option<QuartalVoicedChord> {
    match to_voiced_spec(chord) {
        Some(vc) => Some(QuartalVoicedChord(vc)),
        None => None,
    }
}

/// Construct the default quartal voicing of a chord, in the register
/// starting at MIDI 48 (C3); `None` if the chord has no legal quintal
/// interval structure.
pub fn pc_chord_to_quartal_voiced(chord: &PcChord) -> (r: Option<QuartalVoicedChord>)
    requires
        chord.in_range(),
    ensures
        r == to_quartal_voiced_spec(*chord),
{
    match pc_chord_to_voiced(chord) {
        Some(vc) => Some(QuartalVoicedChord(vc)),
        None => None,
    }
}

/// The quartal inversion cycle of `p` has the L1 pattern `[12, 12, 12, 36]`.
pub open spec fn quartal_pattern_ok(p: [u8; 4]) -> bool {
    let c = quartal_cycle_spec(p);
    &&& l1_spec(c[0], c[1]) == 12
    &&& l1_spec(c[1], c[2]) == 12
    &&& l1_spec(c[2], c[3]) == 12
    &&& l1_spec(c[3], c[0]) == 36
}

/// The chords among the first `n` whose default quartal voicing is missing
/// or breaks the pattern `[12, 12, 12, 36]`, in order.
pub open spec fn quartal_violators(chords: Seq<PcChord>, n: int) -> Seq<PcChord>
    decreases n,
{
    if n <= 0 {
        seq![]
    } else {
        let prev = quartal_violators(chords, n - 1);
        match to_voiced_spec(chords[n - 1]) {
            Some(vc) => if quartal_pattern_ok(vc.pitches) {
                prev
            } else {
                prev.push(chords[n - 1])
            },
            None => prev.push(chords[n - 1]),
        }
    }
}

/// A default voicing of a base chord can run the quartal cycle.
proof fn lemma_quartal_ready(chord: PcChord)
    requires
        chord_in_base(chord),
    ensures
        to_voiced_spec(chord) is Some,
        distinct4(mod12_4(to_voiced_spec(chord)->0.pitches)),
        above_36(to_voiced_spec(chord)->0.pitches),
        quartal_pattern_ok(to_voiced_spec(chord)->0.pitches),
{
    lemma_base_chord_voiced(chord);
    lemma_quartal_universal_l1_law(to_voiced_spec(chord)->0.pitches);
}

/// Whether the default quartal voicing of a base chord has the pattern `[12, 12, 12, 36]`.
fn quartal_chord_ok(chord: &PcChord) -> (r: bool)
    requires
        chord_in_base(*chord),
    ensures
        r == (to_voiced_spec(*chord) is Some && quartal_pattern_ok(to_voiced_spec(*chord)->0.pitches)),
        r,
{
    proof {
        lemma_quartal_ready(*chord);
    }
    match pc_chord_to_quartal_voiced(chord) {
        Some(qvc) => {
            let d = quartal_l1_distances(&qvc);
            d[0] == 12 && d[1] == 12 && d[2] == 12 && d[3] == 36
        },
        None => false,
    }
}

/// Verify the Universal L1 Law in the quartal direction: for every chord of
/// the base space, the quartal inversion cycle of its default voicing has
/// the L1 pattern `[12, 12, 12, 36]`. Returns the violating chords, in
/// enumeration order, if there are any; the law holds, so the result is
/// always `Ok(())`.
pub fn verify_quartal_universal_l1_law(space: &BaseSpace) -> (r: Result<(), Vec<PcChord>>)
    ensures
        r is Ok,
        (r is Ok) == (quartal_violators(space.chords_view(), space.chords_view().len() as int).len()
            == 0),
        r matches Err(v) ==> v@ == quartal_violators(
            space.chords_view(),
            space.chords_view().len() as int,
        ),
{
    let chords = space.chords();
    let n = chords.len();
    assert(forall|k: int| 0 <= k < n ==> chord_in_base(#[trigger] chords@[k]));
    let mut failures: Vec<PcChord> = Vec::new();
    let mut i: usize = 0;
    while i < n
        invariant
            0 <= i <= n,
            n == chords@.len(),
            chords@ == space.chords_view(),
            forall|k: int| 0 <= k < n ==> chord_in_base(#[trigger] chords@[k]),
            failures@ == quartal_violators(chords@, i as int),
            failures@.len() == 0,
        decreases n - i,
    {
        proof {
            lemma_quartal_ready(chords@[i as int]);
        }
        if !quartal_chord_ok(&chords[i]) {
            failures.push(chords[i]);
        }
        i = i + 1;
    }
    if failures.len() == 0 {
        Ok(())
    } else {
        Err(failures)
    }
}

/// The number of voicings among the first `n` of the quartal cycle of `p`
/// with a legal quintal interval structure.
pub open spec fn quartal_legal_count(p: [u8; 4], n: int) -> nat
    decreases n,
{
    if n <= 0 {
        0
    } else {
        quartal_legal_count(p, n - 1) + if ascending4(quartal_cycle_spec(p)[n - 1]) && voicing_structure(quartal_cycle_spec(p)[n - 1]).legal_spec() {
            1nat
        } else {
            0nat
        }
    }
}

/// The fiber class of a chord read through the quartal cycle of its default voicing.
pub open spec fn quartal_class_spec(chord: PcChord) -> Option<FiberClass> {
    match to_voiced_spec(chord) {
        Some(vc) => {
            let n = quartal_legal_count(vc.pitches, 4);
            if n == 1 {
                Some(FiberClass::ClassA)
            } else if n == 2 {
                Some(FiberClass::ClassB)
            } else {
                None
            }
        },
        None => None,
    }
}

/// The quartal fiber class of the first chord, from the `j`-th on, that
/// falls in orbit `orb` and has one.
pub open spec fn first_quartal_class(chords: Seq<PcChord>, orb: Orbit, j: int) -> Option<FiberClass>
    decreases chords.len() - j,
{
    if j < 0 || j >= chords.len() {
        None
    } else if classify_spec(chords[j]) == Some(orb) && quartal_class_spec(chords[j]) is Some {
        quartal_class_spec(chords[j])
    } else {
        first_quartal_class(chords, orb, j + 1)
    }
}

/// The orbits from the `i`-th on, each paired with the quartal fiber class
/// of its first classifiable chord, for those that have one.
pub open spec fn quartal_orbit_classes(chords: Seq<PcChord>, i: int) -> Seq<(Orbit, FiberClass)>
    decreases 14 - i,
{
    if i < 0 || i >= 14 {
        seq![]
    } else {
        let rest = quartal_orbit_classes(chords, i + 1);
        match first_quartal_class(chords, all_orbits()[i], 0) {
            Some(fc) => seq![(all_orbits()[i], fc)] + rest,
            None => rest,
        }
    }
}

/// The voicing is ascending and its interval structure is legal quintal.
fn has_legal_structure(p: [u8; 4]) -> (r: bool)
    ensures
        r == (ascending4(p) && voicing_structure(p).legal_spec()),
{
    p[0] <= p[1] && p[1] <= p[2] && p[2] <= p[3] && 6 <= p[1] - p[0] && p[1] - p[0] <= 8 && 6 <= p[2]
        - p[1] && p[2] - p[1] <= 8 && 6 <= p[3] - p[2] && p[3] - p[2] <= 8
}

/// The quartal fiber class of a base chord.
fn quartal_class(chord: &PcChord) -> (r: Option<FiberClass>)
    requires
        chord_in_base(*chord),
    ensures
        r == quartal_class_spec(*chord),
{
    proof {
        lemma_quartal_ready(*chord);
    }
    match pc_chord_to_quartal_voiced(chord) {
        Some(qvc) => {
            let cycle = quartal_inversion_cycle(&qvc);
            let mut count: usize = 0;
            let mut i: usize = 0;
            while i < 4
                invariant
                    0 <= i <= 4,
                    forall|j: int| 0 <= j < 4 ==> #[trigger] cycle[j].0.pitches == quartal_cycle_spec(qvc.0.pitches)[j],
                    count == quartal_legal_count(qvc.0.pitches, i as int),
                    count <= i,
                decreases 4 - i,
            {
                if has_legal_structure(cycle[i].0.pitches) {
                    count = count + 1;
                }
                i = i + 1;
            }
            if count == 1 {
                Some(FiberClass::ClassA)
            } else if count == 2 {
                Some(FiberClass::ClassB)
            } else {
                None
            }
        },
        None => None,
    }
}

/// The quartal fiber class of the first chord of the list in orbit `orb` that has one.
fn first_quartal_class_exec(chords: &[PcChord], orb: Orbit) -> (r: Option<FiberClass>)
    requires
        forall|k: int| 0 <= k < chords@.len() ==> chord_in_base(#[trigger] chords@[k]),
    ensures
        r == first_quartal_class(chords@, orb, 0),
{
    let n = chords.len();
    let mut j: usize = 0;
    while j < n
        invariant
            0 <= j <= n,
            n == chords@.len(),
            forall|k: int| 0 <= k < n ==> chord_in_base(#[trigger] chords@[k]),
            first_quartal_class(chords@, orb, 0) == first_quartal_class(chords@, orb, j as int),
        decreases n - j,
    {
        if classify_orbit(&chords[j]) == Some(orb) {
            let fc = quartal_class(&chords[j]);
            if fc.is_some() {
                return fc;
            }
        }
        j = j + 1;
    }
    None
}

/// Map each of the 14 orbits, in declaration order, to the fiber class of
/// its first chord in the space, counting legal voicings along the quartal
/// inversion cycle.
pub fn verify_quartal_fiber_classes(space: &BaseSpace) -> (r: Vec<(Orbit, FiberClass)>)
    ensures
        r@ == quartal_orbit_classes(space.chords_view(), 0),
        r@ == orbit_classes(space.chords_view(), 0),
{
    let chords = space.chords();
    assert(forall|k: int| 0 <= k < chords@.len() ==> chord_in_base(#[trigger] chords@[k]));
    proof {
        lemma_quartal_classes_match(chords@, 0);
    }
    let all = Orbit::all();
    let mut out: Vec<(Orbit, FiberClass)> = Vec::new();
    let mut i: usize = 14;
    while i > 0
        invariant
            0 <= i <= 14,
            forall|k: int| 0 <= k < chords@.len() ==> chord_in_base(#[trigger] chords@[k]),
            chords@ == space.chords_view(),
            all@ == all_orbits(),
            out@ == quartal_orbit_classes(chords@, i as int),
        decreases i,
    {
        i = i - 1;
        let orb = all[i];
        match first_quartal_class_exec(chords, orb) {
            Some(fc) => {
                let ghost before = out@;
                let mut next: Vec<(Orbit, FiberClass)> = Vec::new();
                next.push((orb, fc));
                next.append(&mut out);
                out = next;
                proof {
                    assert(out@ =~= seq![(orb, fc)] + before);
                }
            },
            None => {},
        }
    }
    out
}


// ───────────────────────── quartal and quintal fiber classes agree ─────────────────────────

/// Every voice an octave higher.
pub open spec fn octave_up(x: [u8; 4]) -> [u8; 4] {
    [(x[0] + 12) as u8, (x[1] + 12) as u8, (x[2] + 12) as u8, (x[3] + 12) as u8]
}

/// The T1 cycle of an ascending voicing is its quartal cycle read backwards
/// from the last voicing, an octave up: `[p, q3 + 12, q2 + 12, q1 + 12]`.
proof fn lemma_cycles_match(p: [u8; 4])
    requires
        strictly_ascending4(p),
        distinct4(mod12_4(p)),
        p[0] >= 12,
        p[3] <= 243,
    ensures
        inversion_cycle_spec(p)[1] == octave_up(quartal_cycle_spec(p)[3]),
        inversion_cycle_spec(p)[2] == octave_up(quartal_cycle_spec(p)[2]),
        inversion_cycle_spec(p)[3] == octave_up(quartal_cycle_spec(p)[1]),
        strictly_ascending4(quartal_cycle_spec(p)[1]),
        strictly_ascending4(quartal_cycle_spec(p)[2]),
        strictly_ascending4(quartal_cycle_spec(p)[3]),
        quartal_cycle_spec(p)[1][3] <= 243,
        quartal_cycle_spec(p)[2][3] <= 243,
        quartal_cycle_spec(p)[3][3] <= 243,
{
    let c = quartal_cycle_spec(p);
    lemma_quartal_cycle_reverses(p);
    lemma_quartal_cycle_steps(p);
    lemma_t_minus1_ascending(p);
    lemma_t_minus1_ascending(c[1]);
    lemma_t_minus1_ascending(c[2]);
    lemma_t1_four_steps(c[3]);
    lemma_t1_four_steps(c[2]);
    lemma_t1_four_steps(c[1]);
}

/// Moving a voicing up an octave keeps its interval structure.
proof fn lemma_octave_structure(x: [u8; 4])
    requires
        strictly_ascending4(x),
        x[3] <= 243,
    ensures
        voicing_structure(octave_up(x)) == voicing_structure(x),
        ascending4(octave_up(x)),
{
}

/// **The quartal and quintal fiber classes agree.** For a strictly
/// ascending voicing with distinct pitch classes, its bottom voice at or
/// above MIDI 12 and its top voice at most 243, the quartal inversion
/// cycle has as many voicings with a legal interval structure as the T1
/// inversion cycle.
pub proof fn lemma_quartal_count_matches(p: [u8; 4])
    requires
        strictly_ascending4(p),
        distinct4(mod12_4(p)),
        p[0] >= 12,
        p[3] <= 243,
    ensures
        quartal_legal_count(p, 4) == legal_inversions(p, 4).len(),
{
    let c = quartal_cycle_spec(p);
    lemma_cycles_match(p);
    lemma_octave_structure(c[1]);
    lemma_octave_structure(c[2]);
    lemma_octave_structure(c[3]);
    reveal_with_fuel(quartal_legal_count, 5);
    reveal_with_fuel(legal_inversions, 5);
}

/// A base-space chord has the same fiber class through either cycle of its
/// default voicing.
pub proof fn lemma_quartal_class_matches(chord: PcChord)
    requires
        chord_in_base(chord),
    ensures
        quartal_class_spec(chord) == fiber_class_spec(chord),
{
    lemma_base_chord_voiced(chord);
    lemma_quartal_count_matches(to_voiced_spec(chord)->0.pitches);
}

/// The search for a first classified chord gives the same class through
/// either cycle when every chord lies in the base space.
proof fn lemma_first_classes_match(chords: Seq<PcChord>, orb: Orbit, j: int)
    requires
        forall|k: int| 0 <= k < chords.len() ==> chord_in_base(#[trigger] chords[k]),
    ensures
        first_quartal_class(chords, orb, j) == first_class(chords, orb, j),
    decreases chords.len() - j,
{
    if 0 <= j < chords.len() {
        lemma_quartal_class_matches(chords[j]);
        lemma_first_classes_match(chords, orb, j + 1);
    }
}

/// **Both perspectives give the same fiber classes.** Over the chords of
/// the base space, the orbit-to-class table read through the quartal cycle
/// equals the one read through the T1 cycle.
pub proof fn lemma_quartal_classes_match(chords: Seq<PcChord>, i: int)
    requires
        forall|k: int| 0 <= k < chords.len() ==> chord_in_base(#[trigger] chords[k]),
    ensures
        quartal_orbit_classes(chords, i) == orbit_classes(chords, i),
    decreases 14 - i,
{
    if 0 <= i < 14 {
        lemma_first_classes_match(chords, all_orbits()[i], 0);
        lemma_quartal_classes_match(chords, i + 1);
    }
}

} // verus!

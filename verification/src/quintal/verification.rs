//! L1 distance patterns, fiber classification, and the Universal L1 Law of
//! the quintal fiber bundle.
//!
//! The Universal L1 Law states that for every legal quintal voiced chord,
//! the L1 distances between consecutive inversions in the T1 cycle are
//! always `[12, 12, 12, 36]`, where the final entry measures the closing
//! distance from the third inversion back to the original root position.

use vstd::prelude::*;

use super::base_space::{base_space_wf, chord_in_base, BaseSpace};
use super::constructors::stack_pitches;
use super::fiber::{
    chord_scale_of, cycle_fits, index_of4, inversion_cycle, inversion_cycle_spec, l1_distance,
    l1_spec, lemma_chord_scale_facts, lemma_distinct_subset_same, lemma_t1_ascending,
    lemma_permuted_sum, lemma_steps_positive, lemma_t1_index_advances, lemma_three_steps, lemma_universal_l1_law, raised,
    step_up, t1_fits, t1_spec,
};
use super::orbit::{all_orbits, classify_orbit, classify_spec, Orbit};
use super::types::{
    distinct4, first_legal_from, fwd, is_sorting_of, lemma_first_legal_bounds, lemma_sorted4,
    mod12_4, ordering_at, perm4, same_elements4, sorted4, stacking_spec, strictly_ascending4,
    voicing_structure, walk_structure, FiberClass, IntervalStructure, PcChord, VoicedChord,
};

verus! {

/// `p` voices `chord`: strictly ascending pitches whose pitch classes are
/// distinct and, sorted, are those of the chord.
pub open spec fn voices_chord(p: [u8; 4], chord: PcChord) -> bool {
    strictly_ascending4(p) && distinct4(mod12_4(p)) && sorted4(mod12_4(p)) == chord.pcs
}

/// The stacking of `is` from MIDI pitch `48 + pcs[i]` (C3 plus the `i`-th pitch class).
pub open spec fn stack_at(chord: PcChord, is: IntervalStructure, i: int) -> [u8; 4] {
    stack_pitches(48 + chord.pcs[i], is)
}

/// The first stacking of `is`, trying the chord's pitch classes from the
/// `i`-th on as bottom note, that voices the chord.
pub open spec fn voiced_from(chord: PcChord, is: IntervalStructure, i: int) -> Option<VoicedChord>
    decreases 4 - i,
{
    if i < 0 || i >= 4 {
        None
    } else if voices_chord(stack_at(chord, is, i), chord) {
        Some(VoicedChord { pitches: stack_at(chord, is, i) })
    } else {
        voiced_from(chord, is, i + 1)
    }
}

/// The default voicing of a chord: its legal quintal interval structure
/// stacked from C3 plus the first of its pitch classes that yields a voicing
/// of the chord.
pub open spec fn to_voiced_spec(chord: PcChord) -> Option<VoicedChord> {
    match chord.interval_structure_spec() {
        Some(is) => voiced_from(chord, is, 0),
        None => None,
    }
}

/// The indices among the first `n` inversions of the T1 cycle of `p` whose
/// interval structure is legal, in order.
pub open spec fn legal_inversions(p: [u8; 4], n: int) -> Seq<usize>
    decreases n,
{
    if n <= 0 {
        seq![]
    } else {
        let prev = legal_inversions(p, n - 1);
        if voicing_structure(inversion_cycle_spec(p)[n - 1]).legal_spec() {
            prev.push((n - 1) as usize)
        } else {
            prev
        }
    }
}

/// The fiber class of a chord, from the number of legal inversions of its
/// default voicing.
pub open spec fn fiber_class_spec(chord: PcChord) -> Option<FiberClass> {
    match to_voiced_spec(chord) {
        Some(vc) => {
            let n = legal_inversions(vc.pitches, 4).len();
            if n == 1 {
                Some(FiberClass::ClassA)
            } else if n == 2 {
                Some(FiberClass::ClassB)
            } else {
                None
            }
        },
        None => None,
    }
}

/// A voicing with a voicing match at index `a` is found from any index up to `a`.
proof fn lemma_voiced_found(chord: PcChord, is: IntervalStructure, i: int, a: int)
    requires
        0 <= i <= a < 4,
        voices_chord(stack_at(chord, is, a), chord),
    ensures
        voiced_from(chord, is, i) is Some,
        voiced_from(chord, is, i) matches Some(vc) ==> voices_chord(vc.pitches, chord) && exists|
            j: int,
        | 0 <= j < 4 && vc.pitches == stack_at(chord, is, j),
    decreases a - i,
{
    if !voices_chord(stack_at(chord, is, i), chord) {
        lemma_voiced_found(chord, is, i + 1, a);
    }
}

/// Whatever `voiced_from` returns voices the chord and is a stacking from some pitch class.
proof fn lemma_voiced_from_facts(chord: PcChord, is: IntervalStructure, i: int)
    ensures
        voiced_from(chord, is, i) matches Some(vc) ==> voices_chord(vc.pitches, chord) && exists|
            j: int,
        | 0 <= j < 4 && vc.pitches == stack_at(chord, is, j),
    decreases 4 - i,
{
    if 0 <= i < 4 && !voices_chord(stack_at(chord, is, i), chord) {
        lemma_voiced_from_facts(chord, is, i + 1);
    }
}

/// Adding the forward interval from `x` to `y` to `x` lands on `y` modulo 12.
proof fn lemma_fwd_step(x: u8, y: u8, base: int)
    requires
        x <= 11,
        y <= 11,
        base % 12 == x,
        base >= 0,
    ensures
        (base + fwd(x, y)) % 12 == y,
{
    if y >= x {
        assert(fwd(x, y) == y - x);
    } else {
        assert(fwd(x, y) == y + 12 - x);
    }
}

/// The indices of a permutation of four are distinct and in range.
pub(crate) proof fn lemma_perm4_distinct(k: int)
    requires
        0 <= k < 24,
    ensures
        0 <= perm4(k).0 < 4 && 0 <= perm4(k).1 < 4 && 0 <= perm4(k).2 < 4 && 0 <= perm4(k).3 < 4,
        perm4(k).0 != perm4(k).1 && perm4(k).0 != perm4(k).2 && perm4(k).0 != perm4(k).3,
        perm4(k).1 != perm4(k).2 && perm4(k).1 != perm4(k).3 && perm4(k).2 != perm4(k).3,
{
}

/// Stacking the forward intervals of an ordering of pitch classes from
/// `48 + o[0]` yields pitches whose classes are the ordering.
proof fn lemma_stack_classes(o: [u8; 4], is: IntervalStructure)
    requires
        o[0] <= 11 && o[1] <= 11 && o[2] <= 11 && o[3] <= 11,
        is == walk_structure(o),
        is.legal_spec(),
    ensures
        mod12_4(stack_pitches(48 + o[0], is)) == o,
        strictly_ascending4(stack_pitches(48 + o[0], is)),
        stack_pitches(48 + o[0], is)[3] <= 83,
{
    let base: int = 48 + o[0];
    assert(base % 12 == o[0]);
    lemma_fwd_step(o[0], o[1], base);
    lemma_fwd_step(o[1], o[2], base + fwd(o[0], o[1]));
    lemma_fwd_step(o[2], o[3], base + fwd(o[0], o[1]) + fwd(o[1], o[2]));
    assert(mod12_4(stack_pitches(base, is)) =~= o);
}

/// The stacking from the opening pitch class of the chord's legal ordering voices the chord.
proof fn lemma_opening_voices(chord: PcChord, k: int)
    requires
        chord.wf(),
        0 <= k < 24,
        walk_structure(ordering_at(chord.pcs, k)).legal_spec(),
    ensures
        voices_chord(stack_at(chord, walk_structure(ordering_at(chord.pcs, k)), perm4(k).0), chord),
{
    let pcs = chord.pcs;
    let o = ordering_at(pcs, k);
    let is = walk_structure(o);
    lemma_perm4_distinct(k);
    let (a, b, c, d) = perm4(k);
    assert(o == [pcs[a], pcs[b], pcs[c], pcs[d]]);
    assert(o[0] == pcs[a]);
    lemma_stack_classes(o, is);
    let p = stack_at(chord, is, a);
    assert(mod12_4(p) == o);
    assert(distinct4(o));
    assert(distinct4(pcs));
    lemma_distinct_subset_same(o, pcs);
    assert(is_sorting_of(o, pcs));
    lemma_sorted4(o);
    assert(sorted4(o) == pcs);
}

/// Stackings of a legal structure from C3 plus a pitch class stay below 84.
proof fn lemma_stack_low(chord: PcChord, is: IntervalStructure, j: int)
    requires
        chord.wf(),
        is.legal_spec(),
        0 <= j < 4,
    ensures
        stack_at(chord, is, j)[3] <= 83,
        stack_at(chord, is, j)[0] >= 48,
{
}

/// Every chord of the base space has a default voicing.
pub proof fn lemma_base_chord_voiced(chord: PcChord)
    requires
        chord.wf(),
        chord.legal(),
    ensures
        to_voiced_spec(chord) is Some,
        to_voiced_spec(chord) matches Some(vc) ==> voices_chord(vc.pitches, chord)
            && vc.pitches[3] <= 83 && vc.pitches[0] >= 48,
{
    let pcs = chord.pcs;
    let k = first_legal_from(pcs, 0)->0;
    lemma_first_legal_bounds(pcs, 0);
    let is = walk_structure(ordering_at(pcs, k));
    assert(chord.interval_structure_spec() == Some(is));
    lemma_opening_voices(chord, k);
    lemma_perm4_distinct(k);
    lemma_voiced_found(chord, is, 0, perm4(k).0);
    let vc = voiced_from(chord, is, 0)->0;
    let j = choose|j: int| 0 <= j < 4 && vc.pitches == stack_at(chord, is, j);
    lemma_stack_low(chord, is, j);
}

/// A chord-scale step is at most an octave.
proof fn lemma_step_bound(p: [u8; 4], x: u8)
    requires
        distinct4(mod12_4(p)),
    ensures
        0 <= step_up(p, x) <= 12,
{
    lemma_chord_scale_facts(p);
    let cs = chord_scale_of(p);
    let i = index_of4(cs.pcs, (x % 12) as u8);
    assert(0 <= i < 4);
}

/// Raising a voicing by its chord-scale steps raises each voice by at most an octave.
proof fn lemma_raise_bound(p: [u8; 4])
    requires
        strictly_ascending4(p),
        distinct4(mod12_4(p)),
        p[3] <= 243,
    ensures
        t1_fits(p),
        raised(p)[3] <= p[3] + 12,
{
    lemma_step_bound(p, p[0]);
    lemma_step_bound(p, p[1]);
    lemma_step_bound(p, p[2]);
    lemma_step_bound(p, p[3]);
    reveal(raised);
}

/// Two T1 steps raise voice `i` by the step of its pitch class and then by
/// the next step of the chord scale, and the step after that is the third.
proof fn lemma_voice_climb(p: [u8; 4], i: int)
    requires
        strictly_ascending4(p),
        distinct4(mod12_4(p)),
        t1_fits(p),
        0 <= i < 4,
    ensures
        ({
            let s = chord_scale_of(p).steps;
            let j = index_of4(chord_scale_of(p).pcs, (p[i] % 12) as u8);
            &&& 0 <= j < 4
            &&& raised(p)[i] == p[i] + s[j]
            &&& step_up(raised(p), raised(p)[i]) == s[(j + 1) % 4]
            &&& (t1_fits(raised(p)) ==> raised(raised(p))[i] == raised(p)[i] + s[(j + 1) % 4]
                && step_up(raised(raised(p)), raised(raised(p))[i]) == s[(j + 2) % 4])
        }),
{
    lemma_t1_ascending(p);
    lemma_t1_index_advances(p, i);
    let p1 = raised(p);
    if t1_fits(p1) {
        lemma_t1_ascending(p1);
        lemma_t1_index_advances(p1, i);
    }
}

/// Voice `i` of a voicing whose top voice is at most 243 can take the
/// second and the third T1 step within `u8`.
#[verifier::spinoff_prover]
proof fn lemma_voice_fits(p: [u8; 4], i: int)
    requires
        strictly_ascending4(p),
        distinct4(mod12_4(p)),
        t1_fits(p),
        p[3] <= 243,
        0 <= i < 4,
    ensures
        raised(p)[i] + step_up(raised(p), raised(p)[i]) <= 255,
        t1_fits(raised(p)) ==> raised(raised(p))[i] + step_up(raised(raised(p)), raised(raised(p))[i]) <= 255,
{
    lemma_chord_scale_facts(p);
    lemma_steps_positive(p);
    lemma_voice_climb(p, i);
    let s = chord_scale_of(p).steps;
    let j = index_of4(chord_scale_of(p).pcs, (p[i] % 12) as u8);
    lemma_permuted_sum(s, j, (j + 1) % 4, (j + 2) % 4, (j + 3) % 4);
}

/// A voicing whose top voice is at most 243 survives three T1 steps within
/// `u8`: each voice rises by three different steps of its chord scale,
/// which sum to at most 11.
pub proof fn lemma_cycle_fits(p: [u8; 4])
    requires
        strictly_ascending4(p),
        distinct4(mod12_4(p)),
        p[3] <= 243,
    ensures
        cycle_fits(p),
{
    lemma_raise_bound(p);
    lemma_t1_ascending(p);
    let p1 = raised(p);
    lemma_voice_fits(p, 0);
    lemma_voice_fits(p, 1);
    lemma_voice_fits(p, 2);
    lemma_voice_fits(p, 3);
    assert(t1_fits(p1));
    lemma_t1_ascending(p1);
}

/// The fourth T1 step takes voice `i` of the third image a whole octave
/// above where it started.
#[verifier::spinoff_prover]
proof fn lemma_fourth_step(p: [u8; 4], i: int)
    requires
        strictly_ascending4(p),
        distinct4(mod12_4(p)),
        cycle_fits(p),
        0 <= i < 4,
    ensures
        raised(raised(raised(p)))[i] + step_up(raised(raised(raised(p))), raised(raised(raised(p)))[i])
            == p[i] + 12,
        t1_fits(raised(raised(raised(p)))) ==> raised(raised(raised(raised(p))))[i] == p[i] + 12,
{
    lemma_chord_scale_facts(p);
    lemma_three_steps(p, i);
    lemma_t1_ascending(p);
    let p1 = raised(p);
    lemma_t1_ascending(p1);
    let p2 = raised(p1);
    lemma_t1_ascending(p2);
    lemma_t1_index_advances(p, i);
    lemma_t1_index_advances(p1, i);
    lemma_t1_index_advances(p2, i);
    let p3 = raised(p2);
    if t1_fits(p3) {
        lemma_t1_index_advances(p3, i);
    }
}

/// **Four T1 steps make an octave (T12).** For a strictly ascending voicing
/// with distinct pitch classes and its top voice at most 243, applying T1
/// four times raises every voice by exactly 12 semitones.
pub proof fn lemma_t1_four_steps(p: [u8; 4])
    requires
        strictly_ascending4(p),
        distinct4(mod12_4(p)),
        p[3] <= 243,
    ensures
        cycle_fits(p),
        t1_fits(t1_spec(t1_spec(t1_spec(p)))),
        t1_spec(t1_spec(t1_spec(t1_spec(p)))) == [
            (p[0] + 12) as u8,
            (p[1] + 12) as u8,
            (p[2] + 12) as u8,
            (p[3] + 12) as u8,
        ],
{
    lemma_cycle_fits(p);
    lemma_t1_ascending(p);
    let p1 = raised(p);
    lemma_t1_ascending(p1);
    let p2 = raised(p1);
    lemma_t1_ascending(p2);
    let p3 = raised(p2);
    lemma_fourth_step(p, 0);
    lemma_fourth_step(p, 1);
    lemma_fourth_step(p, 2);
    lemma_fourth_step(p, 3);
    assert(t1_fits(p3));
    lemma_t1_ascending(p3);
    assert(raised(p3) =~= [(p[0] + 12) as u8, (p[1] + 12) as u8, (p[2] + 12) as u8, (p[3] + 12) as u8]);
}

/// Construct the default voicing of a chord: its legal quintal interval
/// structure stacked from C3 plus one of its pitch classes, trying them in
/// order until the stacking voices the chord. `None` if the chord has no
/// legal quintal interval structure or no stacking voices it.
pub(crate) fn pc_chord_to_voiced(chord: &PcChord) -> (r: Option<VoicedChord>)
    requires
        chord.in_range(),
    ensures
        r == to_voiced_spec(*chord),
{
    let is = match chord.interval_structure() {
        Some(is) => is,
        None => return None,
    };
    proof {
        lemma_first_legal_bounds(chord.pcs, 0);
    }
    let mut i: usize = 0;
    while i < 4
        invariant
            0 <= i <= 4,
            chord.in_range(),
            chord.interval_structure_spec() == Some(is),
            is.legal_spec(),
            to_voiced_spec(*chord) == voiced_from(*chord, is, i as int),
        decreases 4 - i,
    {
        let start_pc = chord.pcs[i];
        let base: u8 = 48 + start_pc;
        let pitches: [u8; 4] = [base, base + is.0, base + is.0 + is.1, base + is.0 + is.1 + is.2];
        assert(pitches =~= stack_at(*chord, is, i as int));
        match VoicedChord::new(pitches) {
            Ok(vc) => {
                match vc.to_pc_chord() {
                    Ok(pc) => {
                        if pc == *chord {
                            return Some(vc);
                        }
                    },
                    Err(_) => {},
                }
            },
            Err(_) => {},
        }
        i = i + 1;
    }
    None
}

/// The voicings of the T1 cycle of a voicing with distinct pitch classes are strictly ascending.
proof fn lemma_cycle_ascending(p: [u8; 4])
    requires
        strictly_ascending4(p),
        distinct4(mod12_4(p)),
        cycle_fits(p),
    ensures
        strictly_ascending4(inversion_cycle_spec(p)[0]),
        strictly_ascending4(inversion_cycle_spec(p)[1]),
        strictly_ascending4(inversion_cycle_spec(p)[2]),
        strictly_ascending4(inversion_cycle_spec(p)[3]),
{
    lemma_t1_ascending(p);
    let p1 = t1_spec(p);
    lemma_t1_ascending(p1);
    let p2 = t1_spec(p1);
    lemma_t1_ascending(p2);
}

/// Which inversions (indices 0..3) of the T1 cycle of a voicing have a
/// legal quintal interval structure (all components in {6, 7, 8}), in order.
pub fn inversions_in_base(chord: &VoicedChord) -> (r: Vec<usize>)
    requires
        strictly_ascending4(chord.pitches),
        distinct4(mod12_4(chord.pitches)),
        cycle_fits(chord.pitches),
    ensures
        r@ == legal_inversions(chord.pitches, 4),
{
    let cycle = inversion_cycle(chord);
    proof {
        lemma_cycle_ascending(chord.pitches);
    }
    let mut out: Vec<usize> = Vec::new();
    let mut i: usize = 0;
    while i < 4
        invariant
            0 <= i <= 4,
            forall|j: int| 0 <= j < 4 ==> #[trigger] cycle[j].pitches == inversion_cycle_spec(chord.pitches)[j],
            forall|j: int| 0 <= j < 4 ==> strictly_ascending4(#[trigger] inversion_cycle_spec(chord.pitches)[j]),
            out@ == legal_inversions(chord.pitches, i as int),
        decreases 4 - i,
    {
        let inv = cycle[i];
        if inv.interval_structure().is_legal() {
            out.push(i);
        }
        i = i + 1;
    }
    out
}

/// L1 distances between consecutive inversions of the T1 cycle, closing back
/// to the root position: `[d(inv0, inv1), d(inv1, inv2), d(inv2, inv3), d(inv3, inv0)]`.
/// By the Universal L1 Law this is always `[12, 12, 12, 36]`.
#[verifier::spinoff_prover]
#[verifier::rlimit(80)]
pub fn inversion_l1_distances(chord: &VoicedChord) -> (r: [u32; 4])
    requires
        strictly_ascending4(chord.pitches),
        distinct4(mod12_4(chord.pitches)),
        cycle_fits(chord.pitches),
    ensures
        r[0] == l1_spec(inversion_cycle_spec(chord.pitches)[0], inversion_cycle_spec(chord.pitches)[1]),
        r[1] == l1_spec(inversion_cycle_spec(chord.pitches)[1], inversion_cycle_spec(chord.pitches)[2]),
        r[2] == l1_spec(inversion_cycle_spec(chord.pitches)[2], inversion_cycle_spec(chord.pitches)[3]),
        r[3] == l1_spec(inversion_cycle_spec(chord.pitches)[3], inversion_cycle_spec(chord.pitches)[0]),
        r == [12u32, 12, 12, 36],
{
    let cycle = inversion_cycle(chord);
    proof {
        lemma_universal_l1_law(chord.pitches);
    }
    let r = [
        l1_distance(&cycle[0], &cycle[1]),
        l1_distance(&cycle[1], &cycle[2]),
        l1_distance(&cycle[2], &cycle[3]),
        l1_distance(&cycle[3], &cycle[0]),
    ];
    assert(r =~= [12u32, 12, 12, 36]);
    r
}

/// Classify a chord's fiber as Class A (one inversion of its default voicing
/// has a legal interval structure) or Class B (two do); `None` if the chord
/// has no default voicing or another count arises.
pub fn fiber_class(chord: &PcChord) -> (r: Option<FiberClass>)
    requires
        chord.in_range(),
    ensures
        r == fiber_class_spec(*chord),
{
    let vc = match pc_chord_to_voiced(chord) {
        Some(vc) => vc,
        None => return None,
    };
    proof {
        let is = chord.interval_structure_spec()->0;
        lemma_first_legal_bounds(chord.pcs, 0);
        lemma_voiced_from_facts(*chord, is, 0);
        let j = choose|j: int| 0 <= j < 4 && vc.pitches == stack_at(*chord, is, j);
        lemma_stack_low_any(*chord, is, j);
        lemma_cycle_fits(vc.pitches);
    }
    let count = inversions_in_base(&vc).len();
    if count == 1 {
        Some(FiberClass::ClassA)
    } else if count == 2 {
        Some(FiberClass::ClassB)
    } else {
        None
    }
}

/// Stackings of a legal structure from C3 plus an in-range pitch class stay below 84.
proof fn lemma_stack_low_any(chord: PcChord, is: IntervalStructure, j: int)
    requires
        chord.in_range(),
        is.legal_spec(),
        0 <= j < 4,
    ensures
        stack_at(chord, is, j)[3] <= 83,
{
}

/// The chord has a default voicing, and the L1 distances between the
/// consecutive inversions of its T1 cycle are `[12, 12, 12, 36]`.
pub open spec fn obeys_l1_law_spec(chord: PcChord) -> bool {
    match to_voiced_spec(chord) {
        Some(vc) => {
            let c = inversion_cycle_spec(vc.pitches);
            &&& l1_spec(c[0], c[1]) == 12
            &&& l1_spec(c[1], c[2]) == 12
            &&& l1_spec(c[2], c[3]) == 12
            &&& l1_spec(c[3], c[0]) == 36
        },
        None => false,
    }
}

/// The default voicing of a base chord has the inversion distance pattern `[12, 12, 12, 36]`.
fn chord_obeys_l1_law(chord: &PcChord) -> (r: bool)
    requires
        chord_in_base(*chord),
    ensures
        r == obeys_l1_law_spec(*chord),
        r,
{
    proof {
        lemma_base_chord_voiced(*chord);
    }
    match pc_chord_to_voiced(chord) {
        Some(vc) => {
            proof {
                lemma_cycle_fits(vc.pitches);
            }
            let dists = inversion_l1_distances(&vc);
            dists[0] == 12 && dists[1] == 12 && dists[2] == 12 && dists[3] == 36
        },
        None => false,
    }
}

/// Verify the Universal L1 Law for every chord of the base space: each
/// chord's default voicing has the inversion distance pattern
/// `[12, 12, 12, 36]`. Returns the violating chords, if any; the law holds,
/// so the result is always `Ok(())`.
pub fn verify_universal_l1_law(space: &BaseSpace) -> (r: Result<(), Vec<PcChord>>)
    ensures
        r is Ok <==> forall|k: int| 0 <= k < space.chords_view().len() ==> obeys_l1_law_spec(
            #[trigger] space.chords_view()[k],
        ),
        r is Ok,
{
    let chords = space.chords();
    let n = chords.len();
    assert(forall|k: int| 0 <= k < n ==> chord_in_base(#[trigger] chords@[k]));
    let mut failures: Vec<PcChord> = Vec::new();
    let mut i: usize = 0;
    while i < n
        invariant
            0 <= i <= n,
            n == chords@.len(),
            forall|k: int| 0 <= k < n ==> chord_in_base(#[trigger] chords@[k]),
            forall|k: int| 0 <= k < i ==> obeys_l1_law_spec(#[trigger] chords@[k]),
            failures@.len() == 0,
        decreases n - i,
    {
        if !chord_obeys_l1_law(&chords[i]) {
            failures.push(chords[i]);
        }
        i = i + 1;
    }
    if failures.len() == 0 {
        Ok(())
    } else {
        Err(failures)
    }
}

/// The fiber class of the first chord, from the `j`-th on, that falls in
/// orbit `orb` and has a fiber class.
pub open spec fn first_class(chords: Seq<PcChord>, orb: Orbit, j: int) -> Option<FiberClass>
    decreases chords.len() - j,
{
    if j < 0 || j >= chords.len() {
        None
    } else if classify_spec(chords[j]) == Some(orb) && fiber_class_spec(chords[j]) is Some {
        fiber_class_spec(chords[j])
    } else {
        first_class(chords, orb, j + 1)
    }
}

/// The orbits, from the `i`-th on in declaration order, each paired with
/// the fiber class of its first classifiable chord, for those that have one.
pub open spec fn orbit_classes(chords: Seq<PcChord>, i: int) -> Seq<(Orbit, FiberClass)>
    decreases 14 - i,
{
    if i < 0 || i >= 14 {
        seq![]
    } else {
        let rest = orbit_classes(chords, i + 1);
        match first_class(chords, all_orbits()[i], 0) {
            Some(fc) => seq![(all_orbits()[i], fc)] + rest,
            None => rest,
        }
    }
}

/// The fiber class of the first chord of the list that falls in orbit
/// `orb` and has a fiber class.
fn first_class_exec(chords: &[PcChord], orb: Orbit) -> (r: Option<FiberClass>)
    requires
        forall|k: int| 0 <= k < chords@.len() ==> (#[trigger] chords@[k]).in_range(),
    ensures
        r == first_class(chords@, orb, 0),
{
    let n = chords.len();
    let mut j: usize = 0;
    while j < n
        invariant
            0 <= j <= n,
            n == chords@.len(),
            forall|k: int| 0 <= k < n ==> (#[trigger] chords@[k]).in_range(),
            first_class(chords@, orb, 0) == first_class(chords@, orb, j as int),
        decreases n - j,
    {
        if classify_orbit(&chords[j]) == Some(orb) {
            let fc = fiber_class(&chords[j]);
            if fc.is_some() {
                return fc;
            }
        }
        j = j + 1;
    }
    None
}

/// Map each of the 14 orbits, in declaration order, to the fiber class of
/// its first chord in the space (Class A or Class B).
pub fn verify_fiber_classes(space: &BaseSpace) -> (r: Vec<(Orbit, FiberClass)>)
    ensures
        r@ == orbit_classes(space.chords_view(), 0),
{
    let chords = space.chords();
    assert(forall|k: int| 0 <= k < chords@.len() ==> (#[trigger] chords@[k]).in_range()) by {
        assert forall|k: int| 0 <= k < chords@.len() implies (#[trigger] chords@[k]).in_range() by {
            assert(chord_in_base(chords@[k]));
        }
    }
    let all = Orbit::all();
    let mut out: Vec<(Orbit, FiberClass)> = Vec::new();
    let mut i: usize = 14;
    while i > 0
        invariant
            0 <= i <= 14,
            forall|k: int| 0 <= k < chords@.len() ==> (#[trigger] chords@[k]).in_range(),
            chords@ == space.chords_view(),
            all@ == all_orbits(),
            out@ == orbit_classes(chords@, i as int),
        decreases i,
    {
        i = i - 1;
        let orb = all[i];
        match first_class_exec(chords, orb) {
            Some(fc) => {
                let ghost before = out@;
                let mut next: Vec<(Orbit, FiberClass)> = Vec::new();
                next.push((orb, fc));
                next.append(&mut out);
                out = next;
                proof {
                    assert(out@ =~= seq![(orb, fc)] + before);
                }
            },
            None => {},
        }
    }
    out
}

} // verus!

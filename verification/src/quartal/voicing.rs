//! Quartal traversal: in the quartal perspective the forward inversion step
//! is `t_minus1` of the quintal world (the top note dropped by its step),
//! and the reverse step is `t1`.

use vstd::prelude::*;

use super::types::QuartalVoicedChord;
use crate::quintal::fiber::{
    chord_scale_of, index_of4, lemma_chord_scale_facts, lemma_index_of_entry, lemma_permuted_sum,
    lemma_step_down_bounds, lemma_steps_positive, step_down, inversion_cycle_spec, l1_distance, l1_spec, lemma_t_minus1_ascending, lemma_t_minus1_keeps_pcs,
    lemma_t_minus1_undoes_t1, lemma_universal_l1_law, t1, t1_fits, t1_spec, t_minus1,
    t_minus1_spec,
};
use crate::quintal::types::{distinct4, mod12_4, strictly_ascending4};

verus! {

/// The four voicings of the quartal inversion cycle, each obtained from the
/// previous one by T-1.
pub open spec fn quartal_cycle_spec(p: [u8; 4]) -> [[u8; 4]; 4] {
    [
        p,
        t_minus1_spec(p),
        t_minus1_spec(t_minus1_spec(p)),
        t_minus1_spec(t_minus1_spec(t_minus1_spec(p))),
    ]
}

/// Every voice is at or above MIDI 36, so three T-1 steps stay non-negative.
pub open spec fn above_36(p: [u8; 4]) -> bool {
    p[0] >= 36 && p[1] >= 36 && p[2] >= 36 && p[3] >= 36
}

/// Three T-1 steps from `p` stay within MIDI range: every voice is at or
/// above MIDI 36, or the voicing is strictly ascending with its bottom
/// voice at or above MIDI 12 (the three steps lower it by at most 11).
pub open spec fn quartal_cycle_fits(p: [u8; 4]) -> bool {
    above_36(p) || (strictly_ascending4(p) && p[0] >= 12)
}

/// One step in the quartal direction: T-1 of the inner chord.
pub fn t_quartal(chord: &QuartalVoicedChord) -> (r: QuartalVoicedChord)
    requires
        distinct4(mod12_4(chord.0.pitches)),
    ensures
        r.0.pitches == t_minus1_spec(chord.0.pitches),
{
    QuartalVoicedChord(t_minus1(&chord.0))
}

/// One step in the reverse-quartal direction: T1 of the inner chord.
pub fn t_quartal_reverse(chord: &QuartalVoicedChord) -> (r: QuartalVoicedChord)
    requires
        distinct4(mod12_4(chord.0.pitches)),
        t1_fits(chord.0.pitches),
    ensures
        r.0.pitches == t1_spec(chord.0.pitches),
{
    QuartalVoicedChord(t1(&chord.0))
}

/// The quartal inversion cycle `[chord, t_q(chord), t_q^2(chord), t_q^3(chord)]`:
/// the voicings of the quintal cycle visited in the opposite direction.
pub fn quartal_inversion_cycle(chord: &QuartalVoicedChord) -> (r: [QuartalVoicedChord; 4])
    requires
        distinct4(mod12_4(chord.0.pitches)),
        quartal_cycle_fits(chord.0.pitches),
    ensures
        r[0].0.pitches == quartal_cycle_spec(chord.0.pitches)[0],
        r[1].0.pitches == quartal_cycle_spec(chord.0.pitches)[1],
        r[2].0.pitches == quartal_cycle_spec(chord.0.pitches)[2],
        r[3].0.pitches == quartal_cycle_spec(chord.0.pitches)[3],
{
    proof {
        let p = chord.0.pitches;
        if above_36(p) {
            lemma_t_minus1_keeps_pcs(p, 36);
            lemma_t_minus1_keeps_pcs(t_minus1_spec(p), 24);
        } else {
            lemma_quartal_cycle_steps(p);
        }
    }
    let inv0 = *chord;
    let inv1 = t_quartal(&inv0);
    let inv2 = t_quartal(&inv1);
    let inv3 = t_quartal(&inv2);
    [inv0, inv1, inv2, inv3]
}

/// L1 distances between consecutive quartal inversions, closing back to the
/// root: `[d(q0, q1), d(q1, q2), d(q2, q3), d(q3, q0)]`.
pub fn quartal_l1_distances(chord: &QuartalVoicedChord) -> (r: [u32; 4])
    requires
        distinct4(mod12_4(chord.0.pitches)),
        quartal_cycle_fits(chord.0.pitches),
    ensures
        r[0] == l1_spec(quartal_cycle_spec(chord.0.pitches)[0], quartal_cycle_spec(chord.0.pitches)[1]),
        r[1] == l1_spec(quartal_cycle_spec(chord.0.pitches)[1], quartal_cycle_spec(chord.0.pitches)[2]),
        r[2] == l1_spec(quartal_cycle_spec(chord.0.pitches)[2], quartal_cycle_spec(chord.0.pitches)[3]),
        r[3] == l1_spec(quartal_cycle_spec(chord.0.pitches)[3], quartal_cycle_spec(chord.0.pitches)[0]),
        strictly_ascending4(chord.0.pitches) ==> r == [12u32, 12, 12, 36],
{
    proof {
        if strictly_ascending4(chord.0.pitches) {
            lemma_quartal_universal_l1_law(chord.0.pitches);
        }
    }
    let cycle = quartal_inversion_cycle(chord);
    let r = [
        l1_distance(&cycle[0].0, &cycle[1].0),
        l1_distance(&cycle[1].0, &cycle[2].0),
        l1_distance(&cycle[2].0, &cycle[3].0),
        l1_distance(&cycle[3].0, &cycle[0].0),
    ];
    proof {
        if strictly_ascending4(chord.0.pitches) {
            assert(r =~= [12u32, 12, 12, 36]);
        }
    }
    r
}


/// **The quartal cycle runs the quintal cycle backwards.** For a strictly
/// ascending voicing with distinct pitch classes and its bottom voice at or
/// above MIDI 12, the quartal cycle `[p, q1, q2, q3]` is the T1 cycle of `q3`
/// read in reverse: T1 carries `q3` to `q2`, `q2` to `q1` and `q1` back to `p`.
pub proof fn lemma_quartal_cycle_reverses(p: [u8; 4])
    requires
        strictly_ascending4(p),
        distinct4(mod12_4(p)),
        p[0] >= 12,
    ensures
        inversion_cycle_spec(quartal_cycle_spec(p)[3]) == [
            quartal_cycle_spec(p)[3],
            quartal_cycle_spec(p)[2],
            quartal_cycle_spec(p)[1],
            quartal_cycle_spec(p)[0],
        ],
        strictly_ascending4(quartal_cycle_spec(p)[3]),
        distinct4(mod12_4(quartal_cycle_spec(p)[3])),
        crate::quintal::fiber::cycle_fits(quartal_cycle_spec(p)[3]),
{
    lemma_quartal_cycle_steps(p);
    let q1 = t_minus1_spec(p);
    lemma_t_minus1_ascending(p);
    let q2 = t_minus1_spec(q1);
    lemma_t_minus1_ascending(q1);
    let q3 = t_minus1_spec(q2);
    lemma_t_minus1_ascending(q2);
    assert(t1_spec(q3) == q2);
    assert(t1_spec(q2) == q1);
    assert(t1_spec(q1) == p);
}

/// **Universal L1 Law, quartal direction.** For a strictly ascending voicing
/// with distinct pitch classes and its bottom voice at or above MIDI 12, the L1
/// distances between consecutive members of its quartal inversion cycle are
/// `[12, 12, 12, 36]`, the last closing the cycle back to the voicing.
pub proof fn lemma_quartal_universal_l1_law(p: [u8; 4])
    requires
        strictly_ascending4(p),
        distinct4(mod12_4(p)),
        p[0] >= 12,
    ensures
        l1_spec(quartal_cycle_spec(p)[0], quartal_cycle_spec(p)[1]) == 12,
        l1_spec(quartal_cycle_spec(p)[1], quartal_cycle_spec(p)[2]) == 12,
        l1_spec(quartal_cycle_spec(p)[2], quartal_cycle_spec(p)[3]) == 12,
        l1_spec(quartal_cycle_spec(p)[3], quartal_cycle_spec(p)[0]) == 36,
{
    let c = quartal_cycle_spec(p);
    lemma_quartal_cycle_reverses(p);
    let ic = inversion_cycle_spec(c[3]);
    assert(ic[0] == c[3] && ic[1] == c[2] && ic[2] == c[1] && ic[3] == c[0]);
    lemma_universal_l1_law(c[3]);
    lemma_l1_symmetric(c[0], c[1]);
    lemma_l1_symmetric(c[1], c[2]);
    lemma_l1_symmetric(c[2], c[3]);
    lemma_l1_symmetric(c[3], c[0]);
}

/// The index, in its chord scale, of the pitch class of the bottom voice.
pub open spec fn bottom_index(p: [u8; 4]) -> int {
    index_of4(chord_scale_of(p).pcs, (p[0] % 12) as u8)
}

/// One T-1 step of an ascending voicing whose bottom voice can be lowered:
/// the bottom voice drops by the step into its pitch class and lands on the
/// previous pitch class of the same chord scale.
proof fn lemma_bottom_step(p: [u8; 4])
    requires
        strictly_ascending4(p),
        distinct4(mod12_4(p)),
        p[0] >= step_down(p, p[0]),
    ensures
        strictly_ascending4(t_minus1_spec(p)),
        distinct4(mod12_4(t_minus1_spec(p))),
        chord_scale_of(t_minus1_spec(p)) == chord_scale_of(p),
        0 <= bottom_index(p) < 4,
        t_minus1_spec(p)[0] == p[0] - chord_scale_of(p).steps[(bottom_index(p) + 3) % 4],
        bottom_index(t_minus1_spec(p)) == (bottom_index(p) + 3) % 4,
{
    lemma_t_minus1_ascending(p);
    lemma_chord_scale_facts(p);
    let cs = chord_scale_of(p);
    let q = t_minus1_spec(p);
    lemma_index_of_entry(cs.pcs, (bottom_index(p) + 3) % 4);
    assert((q[0] % 12) as u8 == cs.pcs[(bottom_index(p) + 3) % 4]);
}

/// The first two T-1 steps of the quartal cycle of an ascending voicing with
/// its bottom voice at or above MIDI 12 keep the bottom voice high enough
/// for the next step: the three steps lower it by three different steps of
/// the chord scale, which sum to at most 11.
pub proof fn lemma_quartal_cycle_steps(p: [u8; 4])
    requires
        strictly_ascending4(p),
        distinct4(mod12_4(p)),
        p[0] >= 12,
    ensures
        p[0] >= step_down(p, p[0]),
        strictly_ascending4(t_minus1_spec(p)),
        distinct4(mod12_4(t_minus1_spec(p))),
        t_minus1_spec(p)[0] >= step_down(t_minus1_spec(p), t_minus1_spec(p)[0]),
        strictly_ascending4(t_minus1_spec(t_minus1_spec(p))),
        distinct4(mod12_4(t_minus1_spec(t_minus1_spec(p)))),
        t_minus1_spec(t_minus1_spec(p))[0] >= step_down(
            t_minus1_spec(t_minus1_spec(p)),
            t_minus1_spec(t_minus1_spec(p))[0],
        ),
{
    let cs = chord_scale_of(p);
    lemma_chord_scale_facts(p);
    lemma_steps_positive(p);
    lemma_step_down_bounds(p, p[0]);
    let s = cs.steps;
    let j0 = bottom_index(p);
    lemma_bottom_step(p);
    let q1 = t_minus1_spec(p);
    let j1 = (j0 + 3) % 4;
    let j2 = (j1 + 3) % 4;
    let j3 = (j2 + 3) % 4;
    assert(j0 != j1 && j0 != j2 && j0 != j3 && j1 != j2 && j1 != j3 && j2 != j3);
    lemma_permuted_sum(s, j0, j1, j2, j3);
    assert(step_down(q1, q1[0]) == s[j2]);
    lemma_bottom_step(q1);
    let q2 = t_minus1_spec(q1);
    assert(step_down(q2, q2[0]) == s[j3]);
}

/// The L1 distance is symmetric.
proof fn lemma_l1_symmetric(a: [u8; 4], b: [u8; 4])
    ensures
        l1_spec(a, b) == l1_spec(b, a),
{
}

} // verus!

//! Chord-scale and Tymoczko inversion operators for the quintal fiber bundle.
//!
//! This module implements the chord-scale construction and the T1/T-1
//! inversion operators from Tymoczko's voice-leading geometry, specialized
//! to four-note chord voicings.

use vstd::prelude::*;

use super::error::QuintalError;
use super::types::{
    count4, distinct4, is_sorting_of, lemma_same_elements_membership, lemma_sorted4, mod12_4,
    pc_chord_new_spec, same_elements4, sort4, sorted4, strictly_ascending4, PcChord, VoicedChord,
};

verus! {

/// A chord scale derived from a voiced chord: the sorted pitch-class set
/// together with the cyclic step intervals between adjacent pitch classes.
#[derive(Debug, Clone, Copy, Eq, Hash)]
pub struct ChordScale {
    /// The four pitch classes in sorted ascending order.
    pub pcs: [u8; 4],
    /// The four cyclic step intervals between adjacent pitch classes.
    /// `steps[i]` is the interval from `pcs[i]` to `pcs[(i+1) % 4]` (mod 12).
    /// The steps always sum to 12.
    pub steps: [u8; 4],
}

impl PartialEq for ChordScale {
    fn eq(&self, other: &Self) -> (r: bool) {
        let r = self.pcs[0] == other.pcs[0] && self.pcs[1] == other.pcs[1] && self.pcs[2]
            == other.pcs[2] && self.pcs[3] == other.pcs[3] && self.steps[0] == other.steps[0]
            && self.steps[1] == other.steps[1] && self.steps[2] == other.steps[2]
            && self.steps[3] == other.steps[3];
        if r {
            assert(self.pcs =~= other.pcs);
            assert(self.steps =~= other.steps);
        }
        r
    }
}

impl vstd::std_specs::cmp::PartialEqSpecImpl for ChordScale {
    open spec fn obeys_eq_spec() -> bool {
        true
    }

    open spec fn eq_spec(&self, other: &Self) -> bool {
        self.pcs == other.pcs && self.steps == other.steps
    }
}

/// Cyclic steps between adjacent entries of an ascending pitch-class set:
/// `steps[i]` is the interval from `p[i]` up to `p[(i + 1) % 4]`.
pub open spec fn scale_steps(p: [u8; 4]) -> [u8; 4] {
    [(p[1] - p[0]) as u8, (p[2] - p[1]) as u8, (p[3] - p[2]) as u8, (p[0] + 12 - p[3]) as u8]
}

/// The chord scale of a voicing: its pitch classes in ascending order and
/// the cyclic steps between them.
pub open spec fn chord_scale_of(pitches: [u8; 4]) -> ChordScale {
    ChordScale {
        pcs: sorted4(mod12_4(pitches)),
        steps: scale_steps(sorted4(mod12_4(pitches))),
    }
}

/// Index of the first entry of `a` equal to `x` (3 when absent).
pub open spec fn index_of4(a: [u8; 4], x: u8) -> int {
    if a[0] == x {
        0
    } else if a[1] == x {
        1
    } else if a[2] == x {
        2
    } else {
        3
    }
}

/// The chord-scale step that leads upward from the pitch class of `x`.
pub open spec fn step_up(pitches: [u8; 4], x: u8) -> int {
    let cs = chord_scale_of(pitches);
    cs.steps[index_of4(cs.pcs, (x % 12) as u8)] as int
}

/// The chord-scale step that leads into the pitch class of `x` from below.
pub open spec fn step_down(pitches: [u8; 4], x: u8) -> int {
    let cs = chord_scale_of(pitches);
    cs.steps[(index_of4(cs.pcs, (x % 12) as u8) + 3) % 4] as int
}

/// Each voice raised by the chord-scale step above its pitch class.
#[verifier::opaque]
pub open spec fn raised(p: [u8; 4]) -> [u8; 4] {
    [
        (p[0] + step_up(p, p[0])) as u8,
        (p[1] + step_up(p, p[1])) as u8,
        (p[2] + step_up(p, p[2])) as u8,
        (p[3] + step_up(p, p[3])) as u8,
    ]
}

/// Raising every voice by its chord-scale step stays within `u8`.
pub open spec fn t1_fits(p: [u8; 4]) -> bool {
    p[0] + step_up(p, p[0]) <= 255 && p[1] + step_up(p, p[1]) <= 255 && p[2] + step_up(p, p[2])
        <= 255 && p[3] + step_up(p, p[3]) <= 255
}

/// The pitches produced by the Tymoczko T1 operator.
pub open spec fn t1_spec(p: [u8; 4]) -> [u8; 4] {
    sorted4(raised(p))
}

/// Each voice lowered by the chord-scale step below its pitch class.
pub open spec fn lowered(p: [u8; 4]) -> [i16; 4] {
    [
        (p[0] - step_down(p, p[0])) as i16,
        (p[1] - step_down(p, p[1])) as i16,
        (p[2] - step_down(p, p[2])) as i16,
        (p[3] - step_down(p, p[3])) as i16,
    ]
}

/// The array is sorted in non-decreasing order.
pub open spec fn ascending4_i16(a: [i16; 4]) -> bool {
    a[0] <= a[1] && a[1] <= a[2] && a[2] <= a[3]
}

/// `dst` is the ascending rearrangement of `src`.
pub open spec fn is_sorting_of_i16(src: [i16; 4], dst: [i16; 4]) -> bool {
    ascending4_i16(dst) && same_elements4(src, dst)
}

/// The ascending rearrangement of `a`.
pub open spec fn sorted4_i16(a: [i16; 4]) -> [i16; 4] {
    choose|s: [i16; 4]| is_sorting_of_i16(a, s)
}

/// The pitches produced by the inverse Tymoczko operator T-1: each voice
/// lowered by its incoming step, sorted, then converted to `u8`.
pub open spec fn t_minus1_spec(p: [u8; 4]) -> [u8; 4] {
    let s = sorted4_i16(lowered(p));
    [s[0] as u8, s[1] as u8, s[2] as u8, s[3] as u8]
}

/// The four voicings of the T1 inversion cycle.
pub open spec fn inversion_cycle_spec(p: [u8; 4]) -> [[u8; 4]; 4] {
    [p, t1_spec(p), t1_spec(t1_spec(p)), t1_spec(t1_spec(t1_spec(p)))]
}

/// The T1 cycle can be applied three times without leaving `u8`.
pub open spec fn cycle_fits(p: [u8; 4]) -> bool {
    &&& t1_fits(p)
    &&& t1_fits(t1_spec(p))
    &&& t1_fits(t1_spec(t1_spec(p)))
}

/// Positional L1 (taxicab) distance between two voicings.
pub open spec fn l1_spec(a: [u8; 4], b: [u8; 4]) -> int {
    abs_diff(a[0], b[0]) + abs_diff(a[1], b[1]) + abs_diff(a[2], b[2]) + abs_diff(a[3], b[3])
}

/// **The positional L1 distance is a metric**: it is symmetric, zero
/// exactly between equal voicings, and obeys the triangle inequality.
pub proof fn lemma_l1_metric(a: [u8; 4], b: [u8; 4], c: [u8; 4])
    ensures
        l1_spec(a, b) == l1_spec(b, a),
        l1_spec(a, b) >= 0,
        l1_spec(a, b) == 0 <==> a == b,
        l1_spec(a, c) <= l1_spec(a, b) + l1_spec(b, c),
{
    if l1_spec(a, b) == 0 {
        assert(a =~= b);
    }
}

/// Absolute difference of two pitches.
pub open spec fn abs_diff(x: u8, y: u8) -> int {
    if x >= y {
        x - y
    } else {
        y - x
    }
}

spec fn min_i16(x: i16, y: i16) -> i16 {
    if x <= y {
        x
    } else {
        y
    }
}

spec fn max_i16(x: i16, y: i16) -> i16 {
    if x <= y {
        y
    } else {
        x
    }
}

spec fn network_sort4_i16(a: [i16; 4]) -> [i16; 4] {
    let x0 = min_i16(a[0], a[1]);
    let x1 = max_i16(a[0], a[1]);
    let x2 = min_i16(a[2], a[3]);
    let x3 = max_i16(a[2], a[3]);
    let y0 = min_i16(x0, x2);
    let y2 = max_i16(x0, x2);
    let y1 = min_i16(x1, x3);
    let y3 = max_i16(x1, x3);
    [y0, min_i16(y1, y2), max_i16(y1, y2), y3]
}

proof fn lemma_sorting_unique_i16(src: [i16; 4], x: [i16; 4], y: [i16; 4])
    requires
        is_sorting_of_i16(src, x),
        is_sorting_of_i16(src, y),
    ensures
        x == y,
{
    assert(count4(src, x[0]) == count4(x, x[0]));
    assert(count4(src, y[0]) == count4(y, y[0]));
    assert(count4(src, x[0]) == count4(y, x[0]));
    assert(count4(src, y[0]) == count4(x, y[0]));
    assert(count4(src, x[3]) == count4(y, x[3]));
    assert(count4(src, y[3]) == count4(x, y[3]));
    assert(count4(src, x[1]) == count4(y, x[1]));
    assert(count4(src, y[1]) == count4(x, y[1]));
    assert(count4(src, x[2]) == count4(y, x[2]));
    assert(count4(src, y[2]) == count4(x, y[2]));
    assert(x =~= y);
}

/// `sorted4_i16(a)` is the unique ascending rearrangement of `a`.
pub proof fn lemma_sorted4_i16(a: [i16; 4])
    ensures
        is_sorting_of_i16(a, sorted4_i16(a)),
        forall|s: [i16; 4]| is_sorting_of_i16(a, s) ==> s == sorted4_i16(a),
{
    let w = network_sort4_i16(a);
    assert(is_sorting_of_i16(a, w)) by {
        assert forall|x: i16| #![auto] count4(a, x) == count4(w, x) by {}
    }
    assert forall|s: [i16; 4]| is_sorting_of_i16(a, s) implies s == sorted4_i16(a) by {
        lemma_sorting_unique_i16(a, s, sorted4_i16(a));
    }
}

fn compare_swap_i16(a: &mut [i16; 4], i: usize, j: usize)
    requires
        i < j < 4,
    ensures
        final(a)[i as int] == min_i16(old(a)[i as int], old(a)[j as int]),
        final(a)[j as int] == max_i16(old(a)[i as int], old(a)[j as int]),
        forall|k: int| 0 <= k < 4 && k != i && k != j ==> final(a)[k] == old(a)[k],
        same_elements4(*old(a), *final(a)),
{
    let x = a[i];
    let y = a[j];
    if x > y {
        a[i] = y;
        a[j] = x;
    }
}

fn sort4_i16(a: [i16; 4]) -> (r: [i16; 4])
    ensures
        r == sorted4_i16(a),
{
    let mut r = a;
    compare_swap_i16(&mut r, 0, 1);
    let ghost r1 = r;
    compare_swap_i16(&mut r, 2, 3);
    let ghost r2 = r;
    compare_swap_i16(&mut r, 0, 2);
    let ghost r3 = r;
    compare_swap_i16(&mut r, 1, 3);
    let ghost r4 = r;
    compare_swap_i16(&mut r, 1, 2);
    proof {
        assert forall|x: i16| #![auto] count4(a, x) == count4(r, x) by {
            assert(count4(a, x) == count4(r1, x));
            assert(count4(r1, x) == count4(r2, x));
            assert(count4(r2, x) == count4(r3, x));
            assert(count4(r3, x) == count4(r4, x));
            assert(count4(r4, x) == count4(r, x));
        }
        assert(ascending4_i16(r));
        lemma_sorted4_i16(a);
        assert(is_sorting_of_i16(a, r));
    }
    r
}

/// Compute the chord scale for a voiced chord.
///
/// Extracts the pitch classes, sorts them, then computes the cyclic step
/// intervals. The steps always sum to 12. The voicing must have four
/// distinct pitch classes.
pub fn chord_scale(chord: &VoicedChord) -> (r: ChordScale)
    requires
        distinct4(mod12_4(chord.pitches)),
    ensures
        r == chord_scale_of(chord.pitches),
        strictly_ascending4(r.pcs),
        r.pcs[3] <= 11,
        r.steps[0] + r.steps[1] + r.steps[2] + r.steps[3] == 12,
{
    let m: [u8; 4] = [
        chord.pitches[0] % 12,
        chord.pitches[1] % 12,
        chord.pitches[2] % 12,
        chord.pitches[3] % 12,
    ];
    assert(m == mod12_4(chord.pitches));
    let pcs = sort4(m);
    proof {
        lemma_distinct_sorted(m, pcs);
    }
    let s0 = (pcs[1] + 12 - pcs[0]) % 12;
    let s1 = (pcs[2] + 12 - pcs[1]) % 12;
    let s2 = (pcs[3] + 12 - pcs[2]) % 12;
    let s3 = (pcs[0] + 12 - pcs[3]) % 12;
    assert(s0 == pcs[1] - pcs[0]);
    assert(s1 == pcs[2] - pcs[1]);
    assert(s2 == pcs[3] - pcs[2]);
    assert(s3 == pcs[0] + 12 - pcs[3]);
    let steps: [u8; 4] = [s0, s1, s2, s3];
    assert(steps == scale_steps(pcs));
    ChordScale { pcs, steps }
}

/// A sorted arrangement of four distinct pitch classes is strictly ascending
/// and stays within 0..=11.
pub proof fn lemma_distinct_sorted(m: [u8; 4], s: [u8; 4])
    requires
        distinct4(m),
        m[0] <= 11 && m[1] <= 11 && m[2] <= 11 && m[3] <= 11,
        is_sorting_of(m, s),
    ensures
        strictly_ascending4(s),
        s[3] <= 11,
        distinct4(s),
{
    lemma_same_elements_membership(s, m, 0);
    lemma_same_elements_membership(s, m, 1);
    lemma_same_elements_membership(s, m, 2);
    lemma_same_elements_membership(s, m, 3);
    assert(count4(m, s[0]) == count4(s, s[0]));
    assert(count4(m, s[1]) == count4(s, s[1]));
    assert(count4(m, s[2]) == count4(s, s[2]));
    assert(count4(m, s[3]) == count4(s, s[3]));
}

/// Position of pitch class `pc` in the chord scale.
fn scale_index(cs: &ChordScale, pc: u8) -> (j: usize)
    requires
        cs.pcs[0] == pc || cs.pcs[1] == pc || cs.pcs[2] == pc || cs.pcs[3] == pc,
    ensures
        j == index_of4(cs.pcs, pc),
        j < 4,
        cs.pcs[j as int] == pc,
{
    if cs.pcs[0] == pc {
        0
    } else if cs.pcs[1] == pc {
        1
    } else if cs.pcs[2] == pc {
        2
    } else {
        3
    }
}

/// Every pitch class of the voicing appears in its chord scale.
proof fn lemma_pc_in_scale(pitches: [u8; 4], i: int)
    requires
        0 <= i < 4,
        distinct4(mod12_4(pitches)),
    ensures
        ({
            let cs = chord_scale_of(pitches);
            let pc = (pitches[i] % 12) as u8;
            cs.pcs[0] == pc || cs.pcs[1] == pc || cs.pcs[2] == pc || cs.pcs[3] == pc
        }),
{
    lemma_sorted4(mod12_4(pitches));
    lemma_same_elements_membership(mod12_4(pitches), sorted4(mod12_4(pitches)), i);
}

/// Apply the Tymoczko T1 inversion operator.
///
/// Each voice moves up by the chord-scale step corresponding to its current
/// pitch class. The resulting pitches are sorted ascending to produce a new
/// voiced chord. Applying T1 four times yields a transposition up by one
/// octave (T12).
pub fn t1(chord: &VoicedChord) -> (r: VoicedChord)
    requires
        distinct4(mod12_4(chord.pitches)),
        t1_fits(chord.pitches),
    ensures
        r.pitches == t1_spec(chord.pitches),
        strictly_ascending4(chord.pitches) ==> strictly_ascending4(r.pitches) && r.to_pc_result()
            == chord.to_pc_result() && pitch_sum(r.pitches) == pitch_sum(chord.pitches) + 12
            && t_minus1_spec(r.pitches) == chord.pitches,
{
    proof {
        if strictly_ascending4(chord.pitches) {
            lemma_t_minus1_undoes_t1(chord.pitches);
            lemma_t1_ascending(chord.pitches);
            lemma_t1_sum(chord.pitches);
            lemma_same_scale_same_pcs(raised(chord.pitches), chord.pitches);
        }
    }
    let cs = chord_scale(chord);
    let mut new_pitches: [u8; 4] = [0;4];
    let mut i: usize = 0;
    while i < 4
        invariant
            0 <= i <= 4,
            cs == chord_scale_of(chord.pitches),
            distinct4(mod12_4(chord.pitches)),
            t1_fits(chord.pitches),
            forall|k: int| 0 <= k < i ==> new_pitches[k] == raised(chord.pitches)[k],
        decreases 4 - i,
    {
        proof {
            reveal(raised);
        }
        let pitch = chord.pitches[i];
        let pc = pitch % 12;
        proof {
            lemma_pc_in_scale(chord.pitches, i as int);
        }
        let j = scale_index(&cs, pc);
        new_pitches[i] = pitch + cs.steps[j];
        i = i + 1;
    }
    assert(new_pitches =~= raised(chord.pitches)) by {
        reveal(raised);
    }
    let sorted = sort4(new_pitches);
    VoicedChord { pitches: sorted }
}

/// Apply the inverse Tymoczko T-1 inversion operator.
///
/// Each voice moves down by the chord-scale step that *leads to* its current
/// pitch class. This is the inverse of [`t1`]: applying T-1 after T1
/// preserves the pitch-class set (though the voicing may differ by octave
/// placement). The lowered pitches are sorted and converted back to `u8`.
pub fn t_minus1(chord: &VoicedChord) -> (r: VoicedChord)
    requires
        distinct4(mod12_4(chord.pitches)),
    ensures
        r.pitches == t_minus1_spec(chord.pitches),
        strictly_ascending4(chord.pitches) && chord.pitches[0] >= 12 ==> strictly_ascending4(r.pitches)
            && r.to_pc_result() == chord.to_pc_result() && pitch_sum(r.pitches) == pitch_sum(
            chord.pitches,
        ) - 12 && t1_fits(r.pitches) && t1_spec(r.pitches) == chord.pitches,
{
    proof {
        if strictly_ascending4(chord.pitches) && chord.pitches[0] >= 12 {
            lemma_step_down_bounds(chord.pitches, chord.pitches[0]);
            lemma_t_minus1_ascending(chord.pitches);
            lemma_t_minus1_sum(chord.pitches);
            lemma_same_scale_same_pcs(t_minus1_spec(chord.pitches), chord.pitches);
        }
    }
    let cs = chord_scale(chord);
    let mut new_pitches: [i16; 4] = [0;4];
    let mut i: usize = 0;
    while i < 4
        invariant
            0 <= i <= 4,
            cs == chord_scale_of(chord.pitches),
            distinct4(mod12_4(chord.pitches)),
            forall|k: int| 0 <= k < i ==> new_pitches[k] == lowered(chord.pitches)[k],
        decreases 4 - i,
    {
        let pitch = chord.pitches[i];
        let pc = pitch % 12;
        proof {
            lemma_pc_in_scale(chord.pitches, i as int);
        }
        let j = scale_index(&cs, pc);
        let prev = (j + 3) % 4;
        new_pitches[i] = pitch as i16 - cs.steps[prev] as i16;
        i = i + 1;
    }
    assert(new_pitches =~= lowered(chord.pitches));
    let sorted = sort4_i16(new_pitches);
    #[verifier::truncate]
    let p0 = sorted[0] as u8;
    #[verifier::truncate]
    let p1 = sorted[1] as u8;
    #[verifier::truncate]
    let p2 = sorted[2] as u8;
    #[verifier::truncate]
    let p3 = sorted[3] as u8;
    let pitches: [u8; 4] = [p0, p1, p2, p3];
    VoicedChord { pitches }
}

/// Compute the full inversion cycle of length 4.
///
/// Returns `[chord, t1(chord), t1^2(chord), t1^3(chord)]`. The next
/// application of T1 would yield the original chord transposed up one octave.
pub fn inversion_cycle(chord: &VoicedChord) -> (r: [VoicedChord; 4])
    requires
        distinct4(mod12_4(chord.pitches)),
        cycle_fits(chord.pitches),
    ensures
        r[0].pitches == inversion_cycle_spec(chord.pitches)[0],
        r[1].pitches == inversion_cycle_spec(chord.pitches)[1],
        r[2].pitches == inversion_cycle_spec(chord.pitches)[2],
        r[3].pitches == inversion_cycle_spec(chord.pitches)[3],
{
    proof {
        lemma_t1_keeps_pcs(chord.pitches);
        lemma_t1_keeps_pcs(t1_spec(chord.pitches));
    }
    let inv0 = *chord;
    let inv1 = t1(&inv0);
    let inv2 = t1(&inv1);
    let inv3 = t1(&inv2);
    [inv0, inv1, inv2, inv3]
}

/// Project a voiced chord down to its pitch-class chord.
///
/// This is a convenience wrapper around [`VoicedChord::to_pc_chord`].
pub fn project(chord: &VoicedChord) -> (r: Result<PcChord, QuintalError>)
    ensures
        pc_chord_new_spec(mod12_4(chord.pitches), r),
{
    chord.to_pc_chord()
}

/// Compute the L1 (taxicab / Manhattan) voice-leading distance between
/// two voiced chords.
///
/// This measures the total number of semitone steps across all four voices.
pub fn l1_distance(a: &VoicedChord, b: &VoicedChord) -> (r: u32)
    ensures
        r == l1_spec(a.pitches, b.pitches),
{
    let d0 = abs_diff_u8(a.pitches[0], b.pitches[0]) as u32;
    let d1 = abs_diff_u8(a.pitches[1], b.pitches[1]) as u32;
    let d2 = abs_diff_u8(a.pitches[2], b.pitches[2]) as u32;
    let d3 = abs_diff_u8(a.pitches[3], b.pitches[3]) as u32;
    d0 + d1 + d2 + d3
}

/// Absolute difference of two pitches.
pub fn abs_diff_u8(x: u8, y: u8) -> (r: u8)
    ensures
        r == abs_diff(x, y),
{
    if x >= y {
        x - y
    } else {
        y - x
    }
}

// ───────────────────────── lemmas about T1 ─────────────────────────

/// Four distinct values that all occur among four distinct values are a
/// rearrangement of them.
pub proof fn lemma_distinct_subset_same(a: [u8; 4], b: [u8; 4])
    requires
        distinct4(a),
        distinct4(b),
        b[0] == a[0] || b[1] == a[0] || b[2] == a[0] || b[3] == a[0],
        b[0] == a[1] || b[1] == a[1] || b[2] == a[1] || b[3] == a[1],
        b[0] == a[2] || b[1] == a[2] || b[2] == a[2] || b[3] == a[2],
        b[0] == a[3] || b[1] == a[3] || b[2] == a[3] || b[3] == a[3],
    ensures
        same_elements4(a, b),
{
    assert forall|x: u8| #![auto] count4(a, x) == count4(b, x) by {}
}

/// Basic facts about the chord scale of a voicing with distinct pitch classes.
pub proof fn lemma_chord_scale_facts(p: [u8; 4])
    requires
        distinct4(mod12_4(p)),
    ensures
        strictly_ascending4(chord_scale_of(p).pcs),
        chord_scale_of(p).pcs[3] <= 11,
        chord_scale_of(p).steps == scale_steps(chord_scale_of(p).pcs),
        chord_scale_of(p).steps[0] + chord_scale_of(p).steps[1] + chord_scale_of(p).steps[2]
            + chord_scale_of(p).steps[3] == 12,
{
    let m = mod12_4(p);
    lemma_sorted4(m);
    lemma_distinct_sorted(m, sorted4(m));
}

/// A sum of the four steps taken in any order is the plain sum.
pub proof fn lemma_permuted_sum(s: [u8; 4], j0: int, j1: int, j2: int, j3: int)
    requires
        0 <= j0 < 4 && 0 <= j1 < 4 && 0 <= j2 < 4 && 0 <= j3 < 4,
        j0 != j1 && j0 != j2 && j0 != j3 && j1 != j2 && j1 != j3 && j2 != j3,
    ensures
        s[j0] + s[j1] + s[j2] + s[j3] == s[0] + s[1] + s[2] + s[3],
{
}

/// Moving a pitch up by the chord-scale step of its pitch class lands on
/// the next pitch class of the scale.
pub proof fn lemma_voice_step(pcs: [u8; 4], j: int, x: int)
    requires
        strictly_ascending4(pcs),
        pcs[3] <= 11,
        0 <= j < 4,
        x >= 0,
        x % 12 == pcs[j],
    ensures
        (x + scale_steps(pcs)[j]) % 12 == pcs[(j + 1) % 4],
{
    let q = x / 12;
    assert(x == 12 * q + pcs[j]);
    if j == 0 {
        assert(x + scale_steps(pcs)[j] == 12 * q + pcs[1]);
    } else if j == 1 {
        assert(x + scale_steps(pcs)[j] == 12 * q + pcs[2]);
    } else if j == 2 {
        assert(x + scale_steps(pcs)[j] == 12 * q + pcs[3]);
    } else {
        assert(x + scale_steps(pcs)[j] == 12 * (q + 1) + pcs[0]);
    }
}

/// A voice moving up by its step never passes a higher voice whose pitch
/// class belongs to the same scale.
pub proof fn lemma_no_overtake(pcs: [u8; 4], j: int, k: int, x: int, y: int)
    requires
        strictly_ascending4(pcs),
        pcs[3] <= 11,
        0 <= j < 4,
        0 <= k < 4,
        0 <= x < y,
        x % 12 == pcs[j],
        y % 12 == pcs[k],
    ensures
        x + scale_steps(pcs)[j] <= y,
{
    let d = y - x;
    if d < scale_steps(pcs)[j] {
        let q = x / 12;
        assert(x == 12 * q + pcs[j]);
        let qy = y / 12;
        assert(y == 12 * qy + pcs[k]);
        if j < 3 {
            assert(y == 12 * q + pcs[j] + d);
            assert(pcs[j] + d < pcs[j + 1]);
            assert(qy == q);
        } else {
            assert(pcs[j] + d < pcs[0] + 12);
            if pcs[j] + d <= 11 {
                assert(qy == q);
            } else {
                assert(qy == q + 1);
            }
        }
    }
}

/// The pitch-class indices of the four voices in the chord scale are pairwise distinct.
pub proof fn lemma_voice_indices(p: [u8; 4])
    requires
        distinct4(mod12_4(p)),
    ensures
        chord_scale_of(p).pcs[index_of4(chord_scale_of(p).pcs, (p[0] % 12) as u8)] == p[0] % 12,
        chord_scale_of(p).pcs[index_of4(chord_scale_of(p).pcs, (p[1] % 12) as u8)] == p[1] % 12,
        chord_scale_of(p).pcs[index_of4(chord_scale_of(p).pcs, (p[2] % 12) as u8)] == p[2] % 12,
        chord_scale_of(p).pcs[index_of4(chord_scale_of(p).pcs, (p[3] % 12) as u8)] == p[3] % 12,
        index_of4(chord_scale_of(p).pcs, (p[0] % 12) as u8) != index_of4(
            chord_scale_of(p).pcs,
            (p[1] % 12) as u8,
        ),
        index_of4(chord_scale_of(p).pcs, (p[0] % 12) as u8) != index_of4(
            chord_scale_of(p).pcs,
            (p[2] % 12) as u8,
        ),
        index_of4(chord_scale_of(p).pcs, (p[0] % 12) as u8) != index_of4(
            chord_scale_of(p).pcs,
            (p[3] % 12) as u8,
        ),
        index_of4(chord_scale_of(p).pcs, (p[1] % 12) as u8) != index_of4(
            chord_scale_of(p).pcs,
            (p[2] % 12) as u8,
        ),
        index_of4(chord_scale_of(p).pcs, (p[1] % 12) as u8) != index_of4(
            chord_scale_of(p).pcs,
            (p[3] % 12) as u8,
        ),
        index_of4(chord_scale_of(p).pcs, (p[2] % 12) as u8) != index_of4(
            chord_scale_of(p).pcs,
            (p[3] % 12) as u8,
        ),
{
    lemma_pc_in_scale(p, 0);
    lemma_pc_in_scale(p, 1);
    lemma_pc_in_scale(p, 2);
    lemma_pc_in_scale(p, 3);
}

/// Each voice of `raised(p)` sits on the next pitch class of the chord scale.
pub proof fn lemma_raised_pcs(p: [u8; 4], i: int)
    requires
        distinct4(mod12_4(p)),
        t1_fits(p),
        0 <= i < 4,
    ensures
        raised(p)[i] == p[i] + chord_scale_of(p).steps[index_of4(
            chord_scale_of(p).pcs,
            (p[i] % 12) as u8,
        )],
        raised(p)[i] % 12 == chord_scale_of(p).pcs[(index_of4(
            chord_scale_of(p).pcs,
            (p[i] % 12) as u8,
        ) + 1) % 4],
{
    reveal(raised);
    lemma_chord_scale_facts(p);
    lemma_pc_in_scale(p, i);
    let cs = chord_scale_of(p);
    let j = index_of4(cs.pcs, (p[i] % 12) as u8);
    lemma_voice_step(cs.pcs, j, p[i] as int);
}

/// The pitch classes of `raised(p)` are those of the chord scale.
pub proof fn lemma_raised_scale(p: [u8; 4])
    requires
        distinct4(mod12_4(p)),
        t1_fits(p),
    ensures
        distinct4(mod12_4(raised(p))),
        same_elements4(mod12_4(raised(p)), chord_scale_of(p).pcs),
{
    let cs = chord_scale_of(p);
    lemma_chord_scale_facts(p);
    lemma_voice_indices(p);
    lemma_raised_pcs(p, 0);
    lemma_raised_pcs(p, 1);
    lemma_raised_pcs(p, 2);
    lemma_raised_pcs(p, 3);
    let mr = mod12_4(raised(p));
    assert(distinct4(mr));
    lemma_distinct_subset_same(mr, cs.pcs);
}

/// Sorting keeps pitch classes pairwise distinct, and every pitch class of
/// the sorted array comes from the source.
pub proof fn lemma_sorting_keeps_distinct_pcs(src: [u8; 4], dst: [u8; 4])
    requires
        is_sorting_of(src, dst),
        distinct4(mod12_4(src)),
    ensures
        distinct4(mod12_4(dst)),
        same_elements4(mod12_4(src), mod12_4(dst)),
{
    lemma_same_elements_membership(dst, src, 0);
    lemma_same_elements_membership(dst, src, 1);
    lemma_same_elements_membership(dst, src, 2);
    lemma_same_elements_membership(dst, src, 3);
    assert(count4(src, dst[0]) == count4(dst, dst[0]));
    assert(count4(src, dst[1]) == count4(dst, dst[1]));
    assert(count4(src, dst[2]) == count4(dst, dst[2]));
    assert(count4(src, dst[3]) == count4(dst, dst[3]));
    assert(distinct4(dst));
    let ms = mod12_4(src);
    let md = mod12_4(dst);
    assert(distinct4(md));
    lemma_distinct_subset_same(ms, md);
}

/// T1 keeps the pitch-class set of a voicing with distinct pitch classes.
pub proof fn lemma_t1_keeps_pcs(p: [u8; 4])
    requires
        distinct4(mod12_4(p)),
        t1_fits(p),
    ensures
        distinct4(mod12_4(t1_spec(p))),
        chord_scale_of(t1_spec(p)) == chord_scale_of(p),
{
    let cs = chord_scale_of(p);
    let r = raised(p);
    lemma_chord_scale_facts(p);
    lemma_raised_scale(p);
    let t = t1_spec(p);
    lemma_sorted4(r);
    lemma_sorting_keeps_distinct_pcs(r, t);
    let mt = mod12_4(t);
    assert(same_elements4(mt, cs.pcs)) by {
        let mr = mod12_4(r);
        assert forall|x: u8| #![auto] count4(mt, x) == count4(cs.pcs, x) by {
            assert(count4(mr, x) == count4(mt, x));
            assert(count4(mr, x) == count4(cs.pcs, x));
        }
    }
    lemma_sorted4(mt);
    assert(is_sorting_of(mt, cs.pcs));
}

/// One application of T1 to an ascending voicing with distinct pitch
/// classes: voices keep their order, each moves up to the next pitch class
/// of the (unchanged) chord scale, and the total movement is 12.
pub proof fn lemma_t1_ascending(p: [u8; 4])
    requires
        strictly_ascending4(p),
        distinct4(mod12_4(p)),
        t1_fits(p),
    ensures
        t1_spec(p) == raised(p),
        strictly_ascending4(raised(p)),
        distinct4(mod12_4(raised(p))),
        chord_scale_of(raised(p)) == chord_scale_of(p),
        l1_spec(p, raised(p)) == 12,
{
    let cs = chord_scale_of(p);
    let r = raised(p);
    lemma_chord_scale_facts(p);
    lemma_voice_indices(p);
    lemma_raised_pcs(p, 0);
    lemma_raised_pcs(p, 1);
    lemma_raised_pcs(p, 2);
    lemma_raised_pcs(p, 3);
    let j0 = index_of4(cs.pcs, (p[0] % 12) as u8);
    let j1 = index_of4(cs.pcs, (p[1] % 12) as u8);
    let j2 = index_of4(cs.pcs, (p[2] % 12) as u8);
    let j3 = index_of4(cs.pcs, (p[3] % 12) as u8);
    lemma_no_overtake(cs.pcs, j0, j1, p[0] as int, p[1] as int);
    lemma_no_overtake(cs.pcs, j1, j2, p[1] as int, p[2] as int);
    lemma_no_overtake(cs.pcs, j2, j3, p[2] as int, p[3] as int);
    assert(strictly_ascending4(r));
    lemma_sorted4(r);
    assert(is_sorting_of(r, r));
    assert(t1_spec(p) == r);
    lemma_permuted_sum(cs.steps, j0, j1, j2, j3);
    assert(l1_spec(p, r) == 12);
    lemma_t1_keeps_pcs(p);
}

/// The pitch class index of voice `i` advances by one under T1.
pub proof fn lemma_t1_index_advances(p: [u8; 4], i: int)
    requires
        distinct4(mod12_4(p)),
        t1_fits(p),
        0 <= i < 4,
    ensures
        raised(p)[i] == p[i] + chord_scale_of(p).steps[index_of4(
            chord_scale_of(p).pcs,
            (p[i] % 12) as u8,
        )],
        index_of4(chord_scale_of(p).pcs, (raised(p)[i] % 12) as u8) == (index_of4(
            chord_scale_of(p).pcs,
            (p[i] % 12) as u8,
        ) + 1) % 4,
{
    lemma_chord_scale_facts(p);
    lemma_raised_pcs(p, i);
}

/// After three T1 steps each voice of an ascending voicing has risen by an
/// octave minus the step leading into its pitch class.
#[verifier::spinoff_prover]
pub proof fn lemma_three_steps(p: [u8; 4], i: int)
    requires
        strictly_ascending4(p),
        distinct4(mod12_4(p)),
        cycle_fits(p),
        0 <= i < 4,
    ensures
        raised(raised(raised(p)))[i] == p[i] + 12 - chord_scale_of(p).steps[(index_of4(
            chord_scale_of(p).pcs,
            (p[i] % 12) as u8,
        ) + 3) % 4],
{
    let cs = chord_scale_of(p);
    lemma_chord_scale_facts(p);
    lemma_t1_ascending(p);
    let p1 = raised(p);
    lemma_t1_ascending(p1);
    let p2 = raised(p1);
    lemma_pc_in_scale(p, i);
    let j = index_of4(cs.pcs, (p[i] % 12) as u8);
    lemma_t1_index_advances(p, i);
    lemma_t1_index_advances(p1, i);
    lemma_t1_index_advances(p2, i);
    assert(0 <= j < 4);
}

/// The closing distance of the cycle: from the third T1 image back to the
/// original voicing every voice falls by an octave minus one step, 36 in all.
proof fn lemma_closing_distance(p: [u8; 4])
    requires
        strictly_ascending4(p),
        distinct4(mod12_4(p)),
        cycle_fits(p),
    ensures
        l1_spec(raised(raised(raised(p))), p) == 36,
{
    let cs = chord_scale_of(p);
    lemma_chord_scale_facts(p);
    lemma_voice_indices(p);
    let j0 = index_of4(cs.pcs, (p[0] % 12) as u8);
    let j1 = index_of4(cs.pcs, (p[1] % 12) as u8);
    let j2 = index_of4(cs.pcs, (p[2] % 12) as u8);
    let j3 = index_of4(cs.pcs, (p[3] % 12) as u8);
    lemma_three_steps(p, 0);
    lemma_three_steps(p, 1);
    lemma_three_steps(p, 2);
    lemma_three_steps(p, 3);
    lemma_permuted_sum(cs.steps, (j0 + 3) % 4, (j1 + 3) % 4, (j2 + 3) % 4, (j3 + 3) % 4);
}

/// **Universal L1 Law.** For every voiced chord with strictly ascending
/// pitches and four distinct pitch classes, the L1 distances between
/// consecutive members of its T1 inversion cycle are `[12, 12, 12, 36]`,
/// where the last entry closes the cycle back to the original voicing.
pub proof fn lemma_universal_l1_law(p: [u8; 4])
    requires
        strictly_ascending4(p),
        distinct4(mod12_4(p)),
        cycle_fits(p),
    ensures
        l1_spec(inversion_cycle_spec(p)[0], inversion_cycle_spec(p)[1]) == 12,
        l1_spec(inversion_cycle_spec(p)[1], inversion_cycle_spec(p)[2]) == 12,
        l1_spec(inversion_cycle_spec(p)[2], inversion_cycle_spec(p)[3]) == 12,
        l1_spec(inversion_cycle_spec(p)[3], inversion_cycle_spec(p)[0]) == 36,
{
    lemma_t1_ascending(p);
    let p1 = raised(p);
    assert(t1_spec(p) == p1);
    lemma_t1_ascending(p1);
    let p2 = raised(p1);
    assert(t1_spec(p1) == p2);
    lemma_t1_ascending(p2);
    let p3 = raised(p2);
    assert(t1_spec(p2) == p3);
    lemma_closing_distance(p);
    let c = inversion_cycle_spec(p);
    assert(c[0] == p);
    assert(c[1] == p1);
    assert(c[2] == p2);
    assert(c[3] == p3);
}

// ───────────────────────── lemmas about T-1 ─────────────────────────

/// Moving a pitch down by the chord-scale step leading into its pitch class
/// lands on the previous pitch class of the scale.
pub proof fn lemma_voice_step_down(pcs: [u8; 4], j: int, x: int)
    requires
        strictly_ascending4(pcs),
        pcs[3] <= 11,
        0 <= j < 4,
        x >= scale_steps(pcs)[(j + 3) % 4],
        x % 12 == pcs[j],
    ensures
        x - scale_steps(pcs)[(j + 3) % 4] >= 0,
        (x - scale_steps(pcs)[(j + 3) % 4]) % 12 == pcs[(j + 3) % 4],
{
    let q = x / 12;
    assert(x == 12 * q + pcs[j]);
    if j == 0 {
        assert(q >= 1);
        assert(x - scale_steps(pcs)[3] == 12 * (q - 1) + pcs[3]);
    } else if j == 1 {
        assert(x - scale_steps(pcs)[0] == 12 * q + pcs[0]);
    } else if j == 2 {
        assert(x - scale_steps(pcs)[1] == 12 * q + pcs[1]);
    } else {
        assert(x - scale_steps(pcs)[2] == 12 * q + pcs[2]);
    }
}

/// Every step of the chord scale of a voicing with distinct pitch classes
/// lies between 1 and 9 semitones.
pub proof fn lemma_step_down_bounds(p: [u8; 4], x: u8)
    requires
        distinct4(mod12_4(p)),
    ensures
        1 <= step_down(p, x) <= 9,
{
    lemma_chord_scale_facts(p);
    lemma_steps_positive(p);
}

/// Each voice of `lowered(p)` sits on the previous pitch class of the chord scale.
pub proof fn lemma_lowered_pcs(p: [u8; 4], i: int)
    requires
        distinct4(mod12_4(p)),
        0 <= i < 4,
        p[i] >= step_down(p, p[i]),
    ensures
        0 <= lowered(p)[i] <= p[i],
        lowered(p)[i] >= p[i] - 12,
        lowered(p)[i] % 12 == chord_scale_of(p).pcs[(index_of4(
            chord_scale_of(p).pcs,
            (p[i] % 12) as u8,
        ) + 3) % 4],
{
    lemma_chord_scale_facts(p);
    lemma_pc_in_scale(p, i);
    let cs = chord_scale_of(p);
    let j = index_of4(cs.pcs, (p[i] % 12) as u8);
    lemma_voice_step_down(cs.pcs, j, p[i] as int);
}

/// The ascending rearrangement of four values with distinct residues
/// modulo 12 keeps the values and their distinct residues.
proof fn lemma_sorted_i16_residues(l: [i16; 4], lo: int)
    requires
        l[0] % 12 != l[1] % 12 && l[0] % 12 != l[2] % 12 && l[0] % 12 != l[3] % 12,
        l[1] % 12 != l[2] % 12 && l[1] % 12 != l[3] % 12 && l[2] % 12 != l[3] % 12,
        lo <= l[0] <= 255 && lo <= l[1] <= 255 && lo <= l[2] <= 255 && lo <= l[3] <= 255,
    ensures
        ({
            let s = sorted4_i16(l);
            &&& lo <= s[0] <= 255 && lo <= s[1] <= 255 && lo <= s[2] <= 255 && lo <= s[3] <= 255
            &&& s[0] % 12 != s[1] % 12 && s[0] % 12 != s[2] % 12 && s[0] % 12 != s[3] % 12
            &&& s[1] % 12 != s[2] % 12 && s[1] % 12 != s[3] % 12 && s[2] % 12 != s[3] % 12
        }),
{
    lemma_sorted4_i16(l);
    let s = sorted4_i16(l);
    assert(count4(l, s[0]) == count4(s, s[0]));
    assert(count4(l, s[1]) == count4(s, s[1]));
    assert(count4(l, s[2]) == count4(s, s[2]));
    assert(count4(l, s[3]) == count4(s, s[3]));
    assert(count4(l, l[0]) == 1 && count4(l, l[1]) == 1 && count4(l, l[2]) == 1 && count4(l, l[3])
        == 1);
    assert(count4(l, l[0]) == count4(s, l[0]));
    assert(count4(l, l[1]) == count4(s, l[1]));
    assert(count4(l, l[2]) == count4(s, l[2]));
    assert(count4(l, l[3]) == count4(s, l[3]));
}

/// The lowered voices have distinct residues modulo 12 and lie within an
/// octave below the original voices.
proof fn lemma_lowered_residues(p: [u8; 4], m: int)
    requires
        distinct4(mod12_4(p)),
        m >= 12,
        p[0] >= m && p[1] >= m && p[2] >= m && p[3] >= m,
    ensures
        ({
            let l = lowered(p);
            &&& l[0] % 12 != l[1] % 12 && l[0] % 12 != l[2] % 12 && l[0] % 12 != l[3] % 12
            &&& l[1] % 12 != l[2] % 12 && l[1] % 12 != l[3] % 12 && l[2] % 12 != l[3] % 12
            &&& m - 12 <= l[0] <= 255 && m - 12 <= l[1] <= 255
            &&& m - 12 <= l[2] <= 255 && m - 12 <= l[3] <= 255
        }),
{
    lemma_chord_scale_facts(p);
    lemma_voice_indices(p);
    lemma_lowered_pcs(p, 0);
    lemma_lowered_pcs(p, 1);
    lemma_lowered_pcs(p, 2);
    lemma_lowered_pcs(p, 3);
}

/// T-1 keeps the pitch classes of a voicing with distinct pitch classes
/// and every voice at least an octave above 0, and lowers no voice by more
/// than an octave.
pub proof fn lemma_t_minus1_keeps_pcs(p: [u8; 4], m: int)
    requires
        distinct4(mod12_4(p)),
        m >= 12,
        p[0] >= m && p[1] >= m && p[2] >= m && p[3] >= m,
    ensures
        distinct4(mod12_4(t_minus1_spec(p))),
        t_minus1_spec(p)[0] >= m - 12 && t_minus1_spec(p)[1] >= m - 12,
        t_minus1_spec(p)[2] >= m - 12 && t_minus1_spec(p)[3] >= m - 12,
{
    lemma_lowered_residues(p, m);
    lemma_sorted_i16_residues(lowered(p), m - 12);
}


/// The sum of the four voices.
pub open spec fn pitch_sum(p: [u8; 4]) -> int {
    p[0] + p[1] + p[2] + p[3]
}

/// **T1 raises the voices by an octave in all.** Each voice rises by the
/// step of its own pitch class, and the four steps make up an octave.
pub proof fn lemma_t1_sum(p: [u8; 4])
    requires
        strictly_ascending4(p),
        distinct4(mod12_4(p)),
        t1_fits(p),
    ensures
        pitch_sum(t1_spec(p)) == pitch_sum(p) + 12,
{
    let cs = chord_scale_of(p);
    lemma_chord_scale_facts(p);
    lemma_voice_indices(p);
    lemma_t1_ascending(p);
    lemma_t1_index_advances(p, 0);
    lemma_t1_index_advances(p, 1);
    lemma_t1_index_advances(p, 2);
    lemma_t1_index_advances(p, 3);
    lemma_permuted_sum(
        cs.steps,
        index_of4(cs.pcs, (p[0] % 12) as u8),
        index_of4(cs.pcs, (p[1] % 12) as u8),
        index_of4(cs.pcs, (p[2] % 12) as u8),
        index_of4(cs.pcs, (p[3] % 12) as u8),
    );
}

/// **T-1 lowers the voices by an octave in all.**
pub proof fn lemma_t_minus1_sum(p: [u8; 4])
    requires
        strictly_ascending4(p),
        distinct4(mod12_4(p)),
        p[0] >= 12,
    ensures
        pitch_sum(t_minus1_spec(p)) == pitch_sum(p) - 12,
{
    lemma_step_down_bounds(p, p[0]);
    lemma_t_minus1_ascending(p);
    lemma_t1_sum(t_minus1_spec(p));
}

/// Voicings with the same chord scale give the same pitch-class chord.
pub proof fn lemma_same_scale_same_pcs(x: [u8; 4], y: [u8; 4])
    requires
        distinct4(mod12_4(x)),
        distinct4(mod12_4(y)),
        chord_scale_of(x) == chord_scale_of(y),
    ensures
        (VoicedChord { pitches: x }).to_pc_result() == (VoicedChord { pitches: y }).to_pc_result(),
{
}

// ───────────────────────── T1 and T-1 undo each other ─────────────────────────

/// A voice moving down by the step leading into its pitch class never
/// passes below a lower voice whose pitch class belongs to the same scale.
proof fn lemma_no_undertake(pcs: [u8; 4], j: int, k: int, x: int, y: int)
    requires
        strictly_ascending4(pcs),
        pcs[3] <= 11,
        0 <= j < 4,
        0 <= k < 4,
        0 <= x < y,
        x % 12 == pcs[j],
        y % 12 == pcs[k],
    ensures
        y - scale_steps(pcs)[(k + 3) % 4] >= x,
{
    let d = y - x;
    let qy = y / 12;
    assert(y == 12 * qy + pcs[k]);
    let qx = x / 12;
    assert(x == 12 * qx + pcs[j]);
    if d < scale_steps(pcs)[(k + 3) % 4] {
        if k > 0 {
            assert(pcs[k] - d > pcs[k - 1]);
            assert(qx == qy);
        } else {
            if pcs[0] - d >= 0 {
                assert(qx == qy);
            } else {
                assert(qx == qy - 1);
            }
        }
    }
}

/// Every step of the chord scale of a voicing with distinct pitch classes is positive.
pub proof fn lemma_steps_positive(p: [u8; 4])
    requires
        distinct4(mod12_4(p)),
    ensures
        chord_scale_of(p).steps[0] >= 1 && chord_scale_of(p).steps[1] >= 1,
        chord_scale_of(p).steps[2] >= 1 && chord_scale_of(p).steps[3] >= 1,
{
    lemma_chord_scale_facts(p);
}

/// Lowering every voice of an ascending voicing by its incoming step keeps
/// the voices strictly ascending, each one above the voice below it, when
/// the bottom voice can be lowered without going below 0.
proof fn lemma_lowered_ascending(p: [u8; 4])
    requires
        strictly_ascending4(p),
        distinct4(mod12_4(p)),
        p[0] >= step_down(p, p[0]),
    ensures
        lowered(p)[0] < p[0] <= lowered(p)[1] < p[1] <= lowered(p)[2] < p[2] <= lowered(p)[3] < p[3],
        lowered(p)[0] >= p[0] - 12,
        lowered(p)[0] == p[0] - step_down(p, p[0]),
{
    let cs = chord_scale_of(p);
    lemma_chord_scale_facts(p);
    lemma_steps_positive(p);
    lemma_voice_indices(p);
    let j0 = index_of4(cs.pcs, (p[0] % 12) as u8);
    let j1 = index_of4(cs.pcs, (p[1] % 12) as u8);
    let j2 = index_of4(cs.pcs, (p[2] % 12) as u8);
    let j3 = index_of4(cs.pcs, (p[3] % 12) as u8);
    lemma_no_undertake(cs.pcs, j0, j1, p[0] as int, p[1] as int);
    lemma_no_undertake(cs.pcs, j1, j2, p[1] as int, p[2] as int);
    lemma_no_undertake(cs.pcs, j2, j3, p[2] as int, p[3] as int);
    lemma_lowered_pcs(p, 0);
    lemma_lowered_pcs(p, 1);
    lemma_lowered_pcs(p, 2);
    lemma_lowered_pcs(p, 3);
}

/// In a strictly ascending scale, the index of the `k`-th pitch class is `k`.
pub proof fn lemma_index_of_entry(pcs: [u8; 4], k: int)
    requires
        strictly_ascending4(pcs),
        0 <= k < 4,
    ensures
        index_of4(pcs, pcs[k]) == k,
{
}

/// T-1 of a strictly ascending voicing with distinct pitch classes whose
/// bottom voice can be lowered without going below 0: the voices are
/// lowered in place and stay strictly ascending, the chord scale is kept,
/// and T1 raises them back exactly.
pub proof fn lemma_t_minus1_ascending(p: [u8; 4])
    requires
        strictly_ascending4(p),
        distinct4(mod12_4(p)),
        p[0] >= step_down(p, p[0]),
    ensures
        strictly_ascending4(t_minus1_spec(p)),
        distinct4(mod12_4(t_minus1_spec(p))),
        chord_scale_of(t_minus1_spec(p)) == chord_scale_of(p),
        t_minus1_spec(p)[0] >= p[0] - 12,
        t_minus1_spec(p)[0] == p[0] - step_down(p, p[0]),
        t_minus1_spec(p)[3] < p[3],
        t_minus1_spec(p)[0] % 12 == chord_scale_of(p).pcs[(index_of4(chord_scale_of(p).pcs, (p[0] % 12) as u8) + 3) % 4],
        t1_fits(t_minus1_spec(p)),
        raised(t_minus1_spec(p)) == p,
        t1_spec(t_minus1_spec(p)) == p,
{
    let cs = chord_scale_of(p);
    let l = lowered(p);
    lemma_lowered_ascending(p);
    lemma_sorted4_i16(l);
    assert(is_sorting_of_i16(l, l)) by {
        assert forall|x: i16| #![auto] count4(l, x) == count4(l, x) by {}
    }
    assert(sorted4_i16(l) == l);
    let x = t_minus1_spec(p);
    assert(x[0] == l[0] && x[1] == l[1] && x[2] == l[2] && x[3] == l[3]);
    lemma_chord_scale_facts(p);
    lemma_voice_indices(p);
    lemma_lowered_pcs(p, 0);
    lemma_lowered_pcs(p, 1);
    lemma_lowered_pcs(p, 2);
    lemma_lowered_pcs(p, 3);
    let j0 = index_of4(cs.pcs, (p[0] % 12) as u8);
    let j1 = index_of4(cs.pcs, (p[1] % 12) as u8);
    let j2 = index_of4(cs.pcs, (p[2] % 12) as u8);
    let j3 = index_of4(cs.pcs, (p[3] % 12) as u8);
    let mx = mod12_4(x);
    assert(mx[0] == cs.pcs[(j0 + 3) % 4]);
    assert(mx[1] == cs.pcs[(j1 + 3) % 4]);
    assert(mx[2] == cs.pcs[(j2 + 3) % 4]);
    assert(mx[3] == cs.pcs[(j3 + 3) % 4]);
    assert(distinct4(mx));
    assert(distinct4(cs.pcs));
    lemma_distinct_subset_same(mx, cs.pcs);
    lemma_sorted4(mx);
    assert(is_sorting_of(mx, cs.pcs));
    assert(sorted4(mx) == cs.pcs);
    assert(chord_scale_of(x) == cs);
    lemma_index_of_entry(cs.pcs, (j0 + 3) % 4);
    lemma_index_of_entry(cs.pcs, (j1 + 3) % 4);
    lemma_index_of_entry(cs.pcs, (j2 + 3) % 4);
    lemma_index_of_entry(cs.pcs, (j3 + 3) % 4);
    assert(step_up(x, x[0]) == cs.steps[(j0 + 3) % 4]);
    assert(step_up(x, x[1]) == cs.steps[(j1 + 3) % 4]);
    assert(step_up(x, x[2]) == cs.steps[(j2 + 3) % 4]);
    assert(step_up(x, x[3]) == cs.steps[(j3 + 3) % 4]);
    reveal(raised);
    assert(raised(x) =~= p);
    lemma_sorted4(p);
    assert(is_sorting_of(p, p)) by {
        assert forall|v: u8| #![auto] count4(p, v) == count4(p, v) by {}
    }
    assert(t1_spec(x) == p);
}

/// **T-1 undoes T1.** For a strictly ascending voicing with distinct pitch
/// classes whose T1 image fits in `u8`, lowering the raised voicing gives
/// the voicing back.
pub proof fn lemma_t_minus1_undoes_t1(p: [u8; 4])
    requires
        strictly_ascending4(p),
        distinct4(mod12_4(p)),
        t1_fits(p),
    ensures
        t_minus1_spec(t1_spec(p)) == p,
{
    let cs = chord_scale_of(p);
    lemma_t1_ascending(p);
    let r = raised(p);
    lemma_chord_scale_facts(p);
    lemma_voice_indices(p);
    lemma_t1_index_advances(p, 0);
    lemma_t1_index_advances(p, 1);
    lemma_t1_index_advances(p, 2);
    lemma_t1_index_advances(p, 3);
    let l = lowered(r);
    assert(l[0] == p[0] && l[1] == p[1] && l[2] == p[2] && l[3] == p[3]);
    lemma_sorted4_i16(l);
    assert(is_sorting_of_i16(l, l)) by {
        assert forall|x: i16| #![auto] count4(l, x) == count4(l, x) by {}
    }
    assert(sorted4_i16(l) == l);
    assert(t_minus1_spec(r) =~= p);
}

/// **T1 undoes T-1.** For a strictly ascending voicing with distinct pitch
/// classes whose lowest voice is at least an octave above 0, raising the
/// lowered voicing gives the voicing back.
pub proof fn lemma_t1_undoes_t_minus1(p: [u8; 4])
    requires
        strictly_ascending4(p),
        distinct4(mod12_4(p)),
        p[0] >= 12,
    ensures
        t1_fits(t_minus1_spec(p)),
        t1_spec(t_minus1_spec(p)) == p,
{
    lemma_step_down_bounds(p, p[0]);
    lemma_t_minus1_ascending(p);
}

} // verus!

//! Every chord of the base space falls into one of the orbits: the
//! legal quintal stacking of a chord is, up to transposition, the
//! representative stacking of an orbit, read forwards or backwards.

use vstd::prelude::*;

use super::base_space::chord_in_base;
use super::fiber::lemma_distinct_subset_same;
use super::group::{
    invert_transpose_spec, lemma_orbit_members, orbit_spec, reflect4, shift4, ti_image,
    transpose_spec,
};
use super::orbit::{all_orbits, classify_from, classify_spec, rep_chord, Orbit};
use super::types::{
    count4, distinct4, first_legal_from, fwd, is_sorting_of, lemma_first_legal_bounds,
    lemma_sorted4, lemma_sorting_unique, ordering_at, perm4, same_elements4, sorted4, walk_structure,
    IntervalStructure, PcChord,
};
use super::verification::lemma_perm4_distinct;
use vstd::arithmetic::div_mod::{lemma_fundamental_div_mod, lemma_mod_multiples_vanish};

verus! {

/// The pitch classes reached by stacking `is` upward from pitch class 0.
pub open spec fn stack_from_zero(is: IntervalStructure) -> [u8; 4] {
    [0u8, (is.0 % 12) as u8, ((is.0 + is.1) % 12) as u8, ((is.0 + is.1 + is.2) % 12) as u8]
}

/// An interval structure read backwards.
pub open spec fn reversed(is: IntervalStructure) -> IntervalStructure {
    IntervalStructure(is.2, is.1, is.0)
}

/// The orbit whose representative stacking is `is` or `is` read backwards.
pub open spec fn structure_orbit(is: IntervalStructure) -> Orbit {
    let IntervalStructure(a, b, c) = is;
    if (a, b, c) == (7u8, 7u8, 7u8) {
        Orbit::Q777
    } else if (a, b, c) == (7u8, 6u8, 7u8) {
        Orbit::Q767
    } else if (a, b, c) == (7u8, 8u8, 7u8) {
        Orbit::Q787
    } else if (a, b, c) == (6u8, 7u8, 6u8) {
        Orbit::Q676
    } else if (a, b, c) == (6u8, 8u8, 6u8) {
        Orbit::Q686
    } else if (a, b, c) == (8u8, 7u8, 8u8) {
        Orbit::Q878
    } else if (a, b, c) == (8u8, 6u8, 8u8) {
        Orbit::Q868
    } else if (a, b, c) == (7u8, 7u8, 6u8) || (a, b, c) == (6u8, 7u8, 7u8) {
        Orbit::Q776
    } else if (a, b, c) == (8u8, 7u8, 7u8) || (a, b, c) == (7u8, 7u8, 8u8) {
        Orbit::Q877
    } else if (a, b, c) == (8u8, 6u8, 7u8) || (a, b, c) == (7u8, 6u8, 8u8) {
        Orbit::Q867
    } else if (a, b, c) == (8u8, 7u8, 6u8) || (a, b, c) == (6u8, 7u8, 8u8) {
        Orbit::Q876
    } else if (a, b, c) == (7u8, 8u8, 8u8) || (a, b, c) == (8u8, 8u8, 7u8) {
        Orbit::Q788
    } else if (a, b, c) == (7u8, 8u8, 6u8) || (a, b, c) == (6u8, 8u8, 7u8) {
        Orbit::Q786
    } else {
        Orbit::Q688
    }
}

/// The position of an orbit in declaration order.
pub open spec fn orbit_index(o: Orbit) -> int {
    match o {
        Orbit::Q777 => 0,
        Orbit::Q767 => 1,
        Orbit::Q787 => 2,
        Orbit::Q676 => 3,
        Orbit::Q686 => 4,
        Orbit::Q878 => 5,
        Orbit::Q868 => 6,
        Orbit::Q776 => 7,
        Orbit::Q877 => 8,
        Orbit::Q867 => 9,
        Orbit::Q876 => 10,
        Orbit::Q788 => 11,
        Orbit::Q786 => 12,
        Orbit::Q688 => 13,
    }
}

/// Every legal stacking that reaches four distinct pitch classes is the
/// representative stacking of its orbit, forwards or backwards.
proof fn lemma_structure_orbit(is: IntervalStructure)
    requires
        is.legal_spec(),
        distinct4(stack_from_zero(is)),
    ensures
        structure_orbit(is).rep_spec() == is || structure_orbit(is).rep_spec() == reversed(is),
        all_orbits()[orbit_index(structure_orbit(is))] == structure_orbit(is),
        0 <= orbit_index(structure_orbit(is)) < 14,
{
}

/// A search from `i` finds an orbit when the orbit at `j >= i` matches.
proof fn lemma_classify_found(c: PcChord, i: int, j: int)
    requires
        0 <= i <= j < 14,
        orbit_spec(c).contains(rep_chord(all_orbits()[j])),
    ensures
        classify_from(c, i) is Some,
    decreases j - i,
{
    if !orbit_spec(c).contains(rep_chord(all_orbits()[i])) {
        lemma_classify_found(c, i + 1, j);
    }
}

/// Arrays with the same elements sort to the same array.
proof fn lemma_same_sorted(x: [u8; 4], y: [u8; 4])
    requires
        same_elements4(x, y),
    ensures
        sorted4(x) == sorted4(y),
{
    lemma_sorted4(x);
    lemma_sorted4(y);
    assert(is_sorting_of(x, sorted4(y))) by {
        assert forall|v: u8| #![auto] count4(x, v) == count4(sorted4(y), v) by {
            assert(count4(x, v) == count4(y, v));
            assert(count4(y, v) == count4(sorted4(y), v));
        }
    }
}

/// An ordering of a chord's pitch classes holds the same distinct pitch classes.
pub(crate) proof fn lemma_ordering_same(c: PcChord, k: int)
    requires
        c.wf(),
        0 <= k < 24,
    ensures
        distinct4(ordering_at(c.pcs, k)),
        ordering_at(c.pcs, k)[0] <= 11 && ordering_at(c.pcs, k)[1] <= 11,
        ordering_at(c.pcs, k)[2] <= 11 && ordering_at(c.pcs, k)[3] <= 11,
        same_elements4(c.pcs, ordering_at(c.pcs, k)),
{
    lemma_perm4_distinct(k);
    let o = ordering_at(c.pcs, k);
    let (a, b, cc, d) = perm4(k);
    assert(o == [c.pcs[a], c.pcs[b], c.pcs[cc], c.pcs[d]]);
    lemma_distinct_subset_same(c.pcs, o);
}

/// A forward interval lands on its target: `y == x + fwd(x, y)` or that
/// minus an octave.
proof fn lemma_fwd_range(x: u8, y: u8)
    requires
        x <= 11,
        y <= 11,
    ensures
        0 <= fwd(x, y) < 12,
        x + fwd(x, y) == y || x + fwd(x, y) == y + 12,
{
}

/// The pitch classes of an ordering follow from its first one and its forward intervals.
#[verifier::spinoff_prover]
proof fn lemma_walk_positions(o: [u8; 4])
    requires
        o[0] <= 11 && o[1] <= 11 && o[2] <= 11 && o[3] <= 11,
    ensures
        o[1] == (o[0] + walk_structure(o).0) % 12,
        o[2] == (o[0] + walk_structure(o).0 + walk_structure(o).1) % 12,
        o[3] == (o[0] + walk_structure(o).0 + walk_structure(o).1 + walk_structure(o).2) % 12,
{
    let w = walk_structure(o);
    lemma_fwd_range(o[0], o[1]);
    lemma_fwd_range(o[1], o[2]);
    lemma_fwd_range(o[2], o[3]);
    let a: int = fwd(o[0], o[1]);
    let b: int = fwd(o[1], o[2]);
    let c: int = fwd(o[2], o[3]);
    assert(w.0 == a && w.1 == b && w.2 == c);
    let s1: int = o[0] + a;
    let s2: int = s1 + b;
    let s3: int = s2 + c;
    assert(s1 == o[1] || s1 == o[1] + 12);
    assert(s2 == o[2] || s2 == o[2] + 12 || s2 == o[2] + 24);
    assert(s3 == o[3] || s3 == o[3] + 12 || s3 == o[3] + 24 || s3 == o[3] + 36);
    assert(s1 % 12 == o[1]);
    assert(s2 % 12 == o[2]);
    assert(s3 % 12 == o[3]);
}

/// Transposing two different pitch classes by the same amount keeps them different.
proof fn lemma_shift_ne(a: u8, b: u8, n: u8)
    requires
        a != b,
        a <= 11,
        b <= 11,
    ensures
        (a + n) % 12 != (b + n) % 12,
        (n % 12 + 12 - a) % 12 != (n % 12 + 12 - b) % 12,
{
    let x: int = a + n;
    let y: int = b + n;
    assert(x == 12 * (x / 12) + x % 12);
    assert(y == 12 * (y / 12) + y % 12);
    let m: int = (n % 12) as int;
    let u: int = m + 12 - a;
    let v: int = m + 12 - b;
    assert(u == 12 * (u / 12) + u % 12);
    assert(v == 12 * (v / 12) + v % 12);
}

/// Transposition and reflection keep distinct pitch classes distinct.
pub(crate) proof fn lemma_images_distinct(x: [u8; 4], n: u8)
    requires
        distinct4(x),
        x[0] <= 11 && x[1] <= 11 && x[2] <= 11 && x[3] <= 11,
    ensures
        distinct4(shift4(x, n)),
        distinct4(reflect4(x, n)),
{
    lemma_shift_ne(x[0], x[1], n);
    lemma_shift_ne(x[0], x[2], n);
    lemma_shift_ne(x[0], x[3], n);
    lemma_shift_ne(x[1], x[2], n);
    lemma_shift_ne(x[1], x[3], n);
    lemma_shift_ne(x[2], x[3], n);
}

/// Moving back to the start of a stacking: a pitch class `cum` above `o0`,
/// transposed by `12 - o0`, lands on `cum` modulo 12.
proof fn lemma_back_to_zero(o0: u8, cum: int, x: u8, t: u8)
    requires
        o0 <= 11,
        cum >= 0,
        x == (o0 + cum) % 12,
        t == (12 - o0) % 12,
    ensures
        (x + t) % 12 == cum % 12,
{
    let y: int = o0 + cum;
    let q: int = y / 12;
    lemma_fundamental_div_mod(y, 12);
    assert(x == y - 12 * q);
    let e: int = if o0 == 0 { 0 } else { 1 };
    assert(t == 12 * e - o0);
    assert(x + t == 12 * (e - q) + cum);
    lemma_mod_multiples_vanish(e - q, cum, 12);
}

/// Reflecting about the last pitch class of a stacking measures the
/// distance down to it.
proof fn lemma_reflect_back(o0: u8, lo: int, hi: int, x: u8, n: u8)
    requires
        o0 <= 11,
        0 <= lo <= hi,
        x == (o0 + lo) % 12,
        n == (o0 + hi) % 12,
    ensures
        (n % 12 + 12 - x) % 12 == (hi - lo) % 12,
{
    let ya: int = o0 + lo;
    let yb: int = o0 + hi;
    lemma_fundamental_div_mod(ya, 12);
    lemma_fundamental_div_mod(yb, 12);
    let qa: int = ya / 12;
    let qb: int = yb / 12;
    assert(x == ya - 12 * qa);
    assert(n == yb - 12 * qb);
    assert(n % 12 == n);
    assert(n % 12 + 12 - x == 12 * (1 + qa - qb) + (hi - lo));
    lemma_mod_multiples_vanish(1 + qa - qb, hi - lo, 12);
}

/// A rearrangement of four distinct in-range pitch classes is distinct and in range.
pub(crate) proof fn lemma_rearranged_range(x: [u8; 4], y: [u8; 4])
    requires
        distinct4(x),
        x[0] <= 11 && x[1] <= 11 && x[2] <= 11 && x[3] <= 11,
        same_elements4(x, y),
    ensures
        distinct4(y),
        y[0] <= 11 && y[1] <= 11 && y[2] <= 11 && y[3] <= 11,
        forall|i: int| #![trigger x[i]] 0 <= i < 4 ==> exists|j: int| 0 <= j < 4 && #[trigger] y[j] == x[i],
{
    assert(count4(x, y[0]) == count4(y, y[0]));
    assert(count4(x, y[1]) == count4(y, y[1]));
    assert(count4(x, y[2]) == count4(y, y[2]));
    assert(count4(x, y[3]) == count4(y, y[3]));
    assert(count4(x, x[0]) == count4(y, x[0]));
    assert(count4(x, x[1]) == count4(y, x[1]));
    assert(count4(x, x[2]) == count4(y, x[2]));
    assert(count4(x, x[3]) == count4(y, x[3]));
}

/// Transposition carries rearrangements of distinct pitch classes to rearrangements.
pub(crate) proof fn lemma_shift_same(x: [u8; 4], y: [u8; 4], n: u8)
    requires
        distinct4(x),
        x[0] <= 11 && x[1] <= 11 && x[2] <= 11 && x[3] <= 11,
        same_elements4(x, y),
    ensures
        same_elements4(shift4(x, n), shift4(y, n)),
{
    lemma_rearranged_range(x, y);
    lemma_images_distinct(x, n);
    lemma_images_distinct(y, n);
    let sx = shift4(x, n);
    let sy = shift4(y, n);
    assert forall|i: int| 0 <= i < 4 implies sy[0] == sx[i] || sy[1] == sx[i] || sy[2] == sx[i] || sy[3] == sx[i] by {
        let j = choose|j: int| 0 <= j < 4 && #[trigger] y[j] == x[i];
        assert(sy[j] == sx[i]);
    }
    lemma_distinct_subset_same(sx, sy);
}

/// Reflection carries rearrangements of distinct pitch classes to rearrangements.
pub(crate) proof fn lemma_reflect_same(x: [u8; 4], y: [u8; 4], n: u8)
    requires
        distinct4(x),
        x[0] <= 11 && x[1] <= 11 && x[2] <= 11 && x[3] <= 11,
        same_elements4(x, y),
    ensures
        same_elements4(reflect4(x, n), reflect4(y, n)),
{
    lemma_rearranged_range(x, y);
    lemma_images_distinct(x, n);
    lemma_images_distinct(y, n);
    let rx = reflect4(x, n);
    let ry = reflect4(y, n);
    assert forall|i: int| 0 <= i < 4 implies ry[0] == rx[i] || ry[1] == rx[i] || ry[2] == rx[i] || ry[3] == rx[i] by {
        let j = choose|j: int| 0 <= j < 4 && #[trigger] y[j] == x[i];
        assert(ry[j] == rx[i]);
    }
    lemma_distinct_subset_same(rx, ry);
}

/// The stacking of the intervals of an ordering of distinct pitch classes,
/// forwards or backwards from 0, reaches four distinct pitch classes.
proof fn lemma_stack_distinct(o: [u8; 4], w: IntervalStructure)
    requires
        distinct4(o),
        o[0] <= 11 && o[1] <= 11 && o[2] <= 11 && o[3] <= 11,
        o[1] == (o[0] + w.0) % 12,
        o[2] == (o[0] + w.0 + w.1) % 12,
        o[3] == (o[0] + w.0 + w.1 + w.2) % 12,
    ensures
        distinct4(stack_from_zero(w)),
        distinct4(stack_from_zero(reversed(w))),
{
    lemma_stack_distinct_fwd(o, w);
    lemma_stack_distinct_bwd(o, w);
}

proof fn lemma_stack_distinct_fwd(o: [u8; 4], w: IntervalStructure)
    requires
        distinct4(o),
        o[0] <= 11 && o[1] <= 11 && o[2] <= 11 && o[3] <= 11,
        o[1] == (o[0] + w.0) % 12,
        o[2] == (o[0] + w.0 + w.1) % 12,
        o[3] == (o[0] + w.0 + w.1 + w.2) % 12,
    ensures
        distinct4(stack_from_zero(w)),
{
    let t = ((12 - o[0]) % 12) as u8;
    lemma_back_to_zero(o[0], 0, o[0], t);
    lemma_back_to_zero(o[0], w.0 as int, o[1], t);
    lemma_back_to_zero(o[0], w.0 + w.1, o[2], t);
    lemma_back_to_zero(o[0], w.0 + w.1 + w.2, o[3], t);
    lemma_images_distinct(o, t);
    assert(shift4(o, t) =~= stack_from_zero(w));
}

proof fn lemma_stack_distinct_bwd(o: [u8; 4], w: IntervalStructure)
    requires
        distinct4(o),
        o[0] <= 11 && o[1] <= 11 && o[2] <= 11 && o[3] <= 11,
        o[1] == (o[0] + w.0) % 12,
        o[2] == (o[0] + w.0 + w.1) % 12,
        o[3] == (o[0] + w.0 + w.1 + w.2) % 12,
    ensures
        distinct4(stack_from_zero(reversed(w))),
{
    lemma_reflect_stack(o, w);
}

/// Reflecting an ordering about its last pitch class gives the backward
/// stacking from 0, read from the top.
proof fn lemma_reflect_stack(o: [u8; 4], w: IntervalStructure)
    requires
        distinct4(o),
        o[0] <= 11 && o[1] <= 11 && o[2] <= 11 && o[3] <= 11,
        o[1] == (o[0] + w.0) % 12,
        o[2] == (o[0] + w.0 + w.1) % 12,
        o[3] == (o[0] + w.0 + w.1 + w.2) % 12,
    ensures
        ({
            let sr = stack_from_zero(reversed(w));
            reflect4(o, o[3]) == [sr[3], sr[2], sr[1], sr[0]]
        }),
        distinct4(reflect4(o, o[3])),
{
    let n = o[3];
    let h: int = w.0 + w.1 + w.2;
    lemma_reflect_back(o[0], 0, h, o[0], n);
    lemma_reflect_back(o[0], w.0 as int, h, o[1], n);
    lemma_reflect_back(o[0], w.0 + w.1, h, o[2], n);
    lemma_reflect_back(o[0], h, h, o[3], n);
    lemma_images_distinct(o, n);
    let sr = stack_from_zero(reversed(w));
    assert(reflect4(o, n) =~= [sr[3], sr[2], sr[1], sr[0]]);
}

/// In the forward case the transposition by `12 - o[0]` carries the chord
/// onto the representative.
proof fn lemma_forward_case(c: PcChord, o: [u8; 4], w: IntervalStructure, t: u8)
    requires
        c.wf(),
        distinct4(c.pcs),
        same_elements4(c.pcs, o),
        o[0] <= 11 && o[1] <= 11 && o[2] <= 11 && o[3] <= 11,
        o[1] == (o[0] + w.0) % 12,
        o[2] == (o[0] + w.0 + w.1) % 12,
        o[3] == (o[0] + w.0 + w.1 + w.2) % 12,
        t == (12 - o[0]) % 12,
    ensures
        ti_image(c, t as int) == (PcChord { pcs: sorted4(stack_from_zero(w)) }),
{
    let s = stack_from_zero(w);
    lemma_back_to_zero(o[0], 0, o[0], t);
    lemma_back_to_zero(o[0], w.0 as int, o[1], t);
    lemma_back_to_zero(o[0], w.0 + w.1, o[2], t);
    lemma_back_to_zero(o[0], w.0 + w.1 + w.2, o[3], t);
    assert(shift4(o, t) =~= s);
    lemma_shift_same(c.pcs, o, t);
    lemma_same_sorted(shift4(c.pcs, t), s);
}

/// In the backward case the inversion about the last pitch class of the
/// ordering carries the chord onto the representative.
proof fn lemma_backward_case(c: PcChord, o: [u8; 4], w: IntervalStructure, n: u8)
    requires
        c.wf(),
        distinct4(c.pcs),
        distinct4(o),
        same_elements4(c.pcs, o),
        o[0] <= 11 && o[1] <= 11 && o[2] <= 11 && o[3] <= 11,
        o[1] == (o[0] + w.0) % 12,
        o[2] == (o[0] + w.0 + w.1) % 12,
        o[3] == (o[0] + w.0 + w.1 + w.2) % 12,
        distinct4(stack_from_zero(reversed(w))),
        n == o[3],
    ensures
        ti_image(c, 12 + n) == (PcChord { pcs: sorted4(stack_from_zero(reversed(w))) }),
{
    let sr = stack_from_zero(reversed(w));
    let ro = reflect4(o, n);
    lemma_reflect_stack(o, w);
    lemma_distinct_subset_same(ro, sr);
    lemma_reflect_same(c.pcs, o, n);
    lemma_same_chain(reflect4(c.pcs, n), ro, sr);
    lemma_same_sorted(reflect4(c.pcs, n), sr);
}

/// Having the same elements is transitive.
pub(crate) proof fn lemma_same_chain(x: [u8; 4], y: [u8; 4], z: [u8; 4])
    requires
        same_elements4(x, y),
        same_elements4(y, z),
    ensures
        same_elements4(x, z),
{
    assert forall|v: u8| #![auto] count4(x, v) == count4(z, v) by {
        assert(count4(x, v) == count4(y, v));
        assert(count4(y, v) == count4(z, v));
    }
}

/// **Orbit classification law.** Every chord of the base space lies in the
/// T/I orbit of one of the 14 representative chords, so it is classified.
pub proof fn lemma_base_chord_classified(c: PcChord)
    requires
        chord_in_base(c),
    ensures
        classify_spec(c) is Some,
{
    let pcs = c.pcs;
    lemma_first_legal_bounds(pcs, 0);
    let k = first_legal_from(pcs, 0)->0;
    let o = ordering_at(pcs, k);
    let w = walk_structure(o);
    assert(w.legal_spec());
    lemma_ordering_same(c, k);
    lemma_walk_positions(o);
    lemma_stack_distinct(o, w);
    lemma_structure_orbit(w);
    let orb = structure_orbit(w);
    let target = rep_chord(orb);
    let j: int = if orb.rep_spec() == w {
        let t = ((12 - o[0]) % 12) as u8;
        lemma_forward_case(c, o, w, t);
        t as int
    } else {
        lemma_backward_case(c, o, w, o[3]);
        12 + o[3]
    };
    assert(0 <= j < 24 && ti_image(c, j) == target);
    lemma_orbit_members(c, 24, target);
    lemma_classify_found(c, 0, orbit_index(orb));
}


// ───────────────────────── invariance under the T/I group ─────────────────────────

/// The index of the group element `g_j ∘ g_k`, where `g_k` is `T_k` for
/// `k < 12` and `T_{k-12} I` after.
pub open spec fn compose_index(k: int, j: int) -> int {
    if k < 12 && j < 12 {
        (k + j) % 12
    } else if k >= 12 && j < 12 {
        12 + ((k - 12) + j) % 12
    } else if k < 12 {
        12 + ((j - 12) + 12 - k) % 12
    } else {
        ((j - 12) + 12 - (k - 12)) % 12
    }
}

/// The index of the inverse of `g_k`.
pub open spec fn inverse_index(k: int) -> int {
    if k < 12 {
        (12 - k) % 12
    } else {
        k
    }
}

proof fn lemma_tt(x: u8, a: u8, b: u8)
    by (bit_vector)
    requires
        x < 12,
        a < 12,
        b < 12,
    ensures
        ((((x + a) % 12) as u8 + b) % 12) as u8 == ((x + ((a + b) % 12) as u8) % 12) as u8,
{
}

proof fn lemma_ti(x: u8, a: u8, b: u8)
    by (bit_vector)
    requires
        x < 12,
        a < 12,
        b < 12,
    ensures
        ((((a % 12 + 12 - x) % 12) as u8 + b) % 12) as u8 == ((((a + b) % 12) as u8 % 12 + 12 - x)
            % 12) as u8,
{
}

proof fn lemma_it(x: u8, a: u8, b: u8)
    by (bit_vector)
    requires
        x < 12,
        a < 12,
        b < 12,
    ensures
        ((b % 12 + 12 - ((x + a) % 12) as u8) % 12) as u8 == ((((b + 12 - a) % 12) as u8 % 12 + 12
            - x) % 12) as u8,
{
}

proof fn lemma_ii(x: u8, a: u8, b: u8)
    by (bit_vector)
    requires
        x < 12,
        a < 12,
        b < 12,
    ensures
        ((b % 12 + 12 - ((a % 12 + 12 - x) % 12) as u8) % 12) as u8 == ((x + ((b + 12 - a) % 12) as u8)
            % 12) as u8,
{
}

/// The pitch classes moved by the `k`-th group element, unsorted.
pub open spec fn image4(p: [u8; 4], k: int) -> [u8; 4] {
    if k < 12 {
        shift4(p, k as u8)
    } else {
        reflect4(p, (k - 12) as u8)
    }
}

/// A group image of a chord is again a chord: four distinct pitch classes
/// in ascending order, with the same elements as the unsorted image.
#[verifier::spinoff_prover]
pub(crate) proof fn lemma_image_wf(c: PcChord, k: int)
    requires
        c.wf(),
        0 <= k < 24,
    ensures
        ti_image(c, k).wf(),
        ti_image(c, k).pcs == sorted4(image4(c.pcs, k)),
        same_elements4(image4(c.pcs, k), ti_image(c, k).pcs),
        distinct4(image4(c.pcs, k)),
{
    let m = image4(c.pcs, k);
    lemma_images_distinct(c.pcs, if k < 12 { k as u8 } else { (k - 12) as u8 });
    lemma_sorted4(m);
    super::fiber::lemma_distinct_sorted(m, sorted4(m));
}

proof fn lemma_compose_tt(p: [u8; 4], a: u8, b: u8)
    requires
        p[0] < 12 && p[1] < 12 && p[2] < 12 && p[3] < 12,
        a < 12,
        b < 12,
    ensures
        shift4(shift4(p, a), b) == shift4(p, ((a + b) % 12) as u8),
{
    lemma_tt(p[0], a, b);
    lemma_tt(p[1], a, b);
    lemma_tt(p[2], a, b);
    lemma_tt(p[3], a, b);
    assert(shift4(shift4(p, a), b) =~= shift4(p, ((a + b) % 12) as u8));
}

proof fn lemma_compose_ti(p: [u8; 4], a: u8, b: u8)
    requires
        p[0] < 12 && p[1] < 12 && p[2] < 12 && p[3] < 12,
        a < 12,
        b < 12,
    ensures
        shift4(reflect4(p, a), b) == reflect4(p, ((a + b) % 12) as u8),
{
    lemma_ti(p[0], a, b);
    lemma_ti(p[1], a, b);
    lemma_ti(p[2], a, b);
    lemma_ti(p[3], a, b);
    assert(shift4(reflect4(p, a), b) =~= reflect4(p, ((a + b) % 12) as u8));
}

proof fn lemma_compose_it(p: [u8; 4], a: u8, b: u8)
    requires
        p[0] < 12 && p[1] < 12 && p[2] < 12 && p[3] < 12,
        a < 12,
        b < 12,
    ensures
        reflect4(shift4(p, a), b) == reflect4(p, ((b + 12 - a) % 12) as u8),
{
    lemma_it(p[0], a, b);
    lemma_it(p[1], a, b);
    lemma_it(p[2], a, b);
    lemma_it(p[3], a, b);
    assert(reflect4(shift4(p, a), b) =~= reflect4(p, ((b + 12 - a) % 12) as u8));
}

proof fn lemma_compose_ii(p: [u8; 4], a: u8, b: u8)
    requires
        p[0] < 12 && p[1] < 12 && p[2] < 12 && p[3] < 12,
        a < 12,
        b < 12,
    ensures
        reflect4(reflect4(p, a), b) == shift4(p, ((b + 12 - a) % 12) as u8),
{
    lemma_ii(p[0], a, b);
    lemma_ii(p[1], a, b);
    lemma_ii(p[2], a, b);
    lemma_ii(p[3], a, b);
    assert(reflect4(reflect4(p, a), b) =~= shift4(p, ((b + 12 - a) % 12) as u8));
}

/// Moving pitch classes by two group elements in turn moves them by the composition.
proof fn lemma_compose_arrays(p: [u8; 4], k: int, j: int)
    requires
        p[0] < 12 && p[1] < 12 && p[2] < 12 && p[3] < 12,
        0 <= k < 24,
        0 <= j < 24,
    ensures
        image4(image4(p, k), j) == image4(p, compose_index(k, j)),
        0 <= compose_index(k, j) < 24,
{
    if k < 12 && j < 12 {
        lemma_compose_tt(p, k as u8, j as u8);
    } else if k >= 12 && j < 12 {
        lemma_compose_ti(p, (k - 12) as u8, j as u8);
    } else if k < 12 {
        lemma_compose_it(p, k as u8, (j - 12) as u8);
    } else {
        lemma_compose_ii(p, (k - 12) as u8, (j - 12) as u8);
    }
}

/// Applying two group elements in turn applies their composition.
#[verifier::spinoff_prover]
proof fn lemma_image_of_image(c: PcChord, k: int, j: int)
    requires
        c.wf(),
        0 <= k < 24,
        0 <= j < 24,
    ensures
        ti_image(ti_image(c, k), j) == ti_image(c, compose_index(k, j)),
{
    let p = c.pcs;
    lemma_image_wf(c, k);
    let d = ti_image(c, k);
    let m = image4(p, k);
    lemma_image_wf(d, j);
    lemma_compose_arrays(p, k, j);
    let jj: u8 = if j < 12 { j as u8 } else { (j - 12) as u8 };
    assert(m[0] < 12 && m[1] < 12 && m[2] < 12 && m[3] < 12);
    if j < 12 {
        lemma_shift_same(m, d.pcs, jj);
    } else {
        lemma_reflect_same(m, d.pcs, jj);
    }
    assert(same_elements4(image4(d.pcs, j), image4(m, j))) by {
        lemma_same_flip(image4(m, j), image4(d.pcs, j));
    }
    lemma_same_sorted(image4(d.pcs, j), image4(p, compose_index(k, j)));
    lemma_image_wf(c, compose_index(k, j));
}

/// Having the same elements is symmetric.
pub(crate) proof fn lemma_same_flip(x: [u8; 4], y: [u8; 4])
    requires
        same_elements4(x, y),
    ensures
        same_elements4(y, x),
{
    assert forall|v: u8| #![auto] count4(y, v) == count4(x, v) by {
        assert(count4(x, v) == count4(y, v));
    }
}

/// The identity element of the group leaves a chord as it is.
proof fn lemma_identity_image(c: PcChord)
    requires
        c.wf(),
    ensures
        ti_image(c, 0) == c,
{
    let p = c.pcs;
    assert(shift4(p, 0) =~= p);
    lemma_sorted4(p);
    assert(is_sorting_of(p, p)) by {
        assert forall|v: u8| #![auto] count4(p, v) == count4(p, v) by {}
    }
    lemma_sorting_unique(p, p, sorted4(p));
}

/// A group element composed with its inverse is the identity.
proof fn lemma_compose_inverse(k: int)
    requires
        0 <= k < 24,
    ensures
        0 <= inverse_index(k) < 24,
        compose_index(k, inverse_index(k)) == 0,
{
    if k == 0 {
        assert(inverse_index(k) == 0);
    } else if k < 12 {
        assert(inverse_index(k) == 12 - k);
    } else {
        assert(inverse_index(k) == k);
    }
}

/// The image under `g_k` and then its inverse is the chord itself.
pub(crate) proof fn lemma_image_inverse(c: PcChord, k: int)
    requires
        c.wf(),
        0 <= k < 24,
    ensures
        0 <= inverse_index(k) < 24,
        ti_image(ti_image(c, k), inverse_index(k)) == c,
{
    lemma_compose_inverse(k);
    lemma_image_of_image(c, k, inverse_index(k));
    lemma_identity_image(c);
}

/// A chord and its image under `g_k` have the same T/I orbit, as a set.
proof fn lemma_orbit_same(c: PcChord, k: int, x: PcChord)
    requires
        c.wf(),
        0 <= k < 24,
    ensures
        orbit_spec(ti_image(c, k)).contains(x) <==> orbit_spec(c).contains(x),
{
    let d = ti_image(c, k);
    lemma_image_wf(c, k);
    lemma_orbit_members(c, 24, x);
    lemma_orbit_members(d, 24, x);
    if orbit_spec(d).contains(x) {
        let j = choose|j: int| 0 <= j < 24 && ti_image(d, j) == x;
        lemma_image_of_image(c, k, j);
        assert(ti_image(c, compose_index(k, j)) == x);
    }
    if orbit_spec(c).contains(x) {
        let j = choose|j: int| 0 <= j < 24 && ti_image(c, j) == x;
        let ki = inverse_index(k);
        lemma_image_inverse(c, k);
        lemma_image_of_image(d, ki, j);
        assert(ti_image(d, compose_index(ki, j)) == x);
    }
}

/// The search over orbits from `i` on gives the same answer for a chord
/// and for its image under `g_k`.
proof fn lemma_classify_from_same(c: PcChord, k: int, i: int)
    requires
        c.wf(),
        0 <= k < 24,
    ensures
        classify_from(ti_image(c, k), i) == classify_from(c, i),
    decreases 14 - i,
{
    if 0 <= i < 14 {
        lemma_orbit_same(c, k, rep_chord(all_orbits()[i]));
        lemma_classify_from_same(c, k, i + 1);
    }
}

proof fn lemma_shift_mod(x: u8, n: u8)
    by (bit_vector)
    requires
        x < 12,
    ensures
        ((x + n) % 12) as u8 == ((x + n % 12) % 12) as u8,
{
}

/// Transposing or inverting by `n` is the same as by `n` modulo 12.
proof fn lemma_group_mod(p: [u8; 4], n: u8)
    requires
        p[0] < 12 && p[1] < 12 && p[2] < 12 && p[3] < 12,
    ensures
        shift4(p, n) == shift4(p, n % 12),
        reflect4(p, n) == reflect4(p, n % 12),
{
    lemma_shift_mod(p[0], n);
    lemma_shift_mod(p[1], n);
    lemma_shift_mod(p[2], n);
    lemma_shift_mod(p[3], n);
    assert(n % 12 % 12 == n % 12) by (bit_vector);
    assert(shift4(p, n) =~= shift4(p, n % 12));
    assert(reflect4(p, n) =~= reflect4(p, n % 12));
}

/// **Orbit invariance.** Transposing or inverting a chord does not change
/// its orbit: each orbit is closed under the T/I group, so the quartal
/// (inverted) reading of a chord lies in the orbit of its quintal reading.
pub proof fn lemma_classify_invariant(c: PcChord, n: u8)
    requires
        c.wf(),
    ensures
        classify_spec(transpose_spec(c, n)) == classify_spec(c),
        classify_spec(invert_transpose_spec(c, n)) == classify_spec(c),
{
    let m: u8 = n % 12;
    lemma_group_mod(c.pcs, n);
    assert(transpose_spec(c, n) == ti_image(c, m as int));
    assert(invert_transpose_spec(c, n) == ti_image(c, 12 + m));
    lemma_classify_from_same(c, m as int, 0);
    lemma_classify_from_same(c, 12 + m, 0);
}


// ───────────────────────── self-duality ─────────────────────────

/// The chord stacked from pitch class 0 by the intervals of `is`.
pub open spec fn stacked_chord(is: IntervalStructure) -> PcChord {
    PcChord { pcs: sorted4(stack_from_zero(is)) }
}

proof fn lemma_reverse_stack_entries(a: u8, b: u8, c: u8)
    by (bit_vector)
    requires
        6 <= a <= 8,
        6 <= b <= 8,
        6 <= c <= 8,
    ensures
        ((((a + b + c) % 12) as u8 % 12 + 12 - 0u8) % 12) as u8 == ((c + b + a) % 12) as u8,
        ((((a + b + c) % 12) as u8 % 12 + 12 - (a % 12) as u8) % 12) as u8 == ((c + b) % 12) as u8,
        ((((a + b + c) % 12) as u8 % 12 + 12 - ((a + b) % 12) as u8) % 12) as u8 == (c % 12) as u8,
        ((((a + b + c) % 12) as u8 % 12 + 12 - ((a + b + c) % 12) as u8) % 12) as u8 == 0u8,
{
}

/// Inverting the stacking of `is` about the sum of its intervals gives the
/// stacking of `is` read backwards, in the opposite order.
proof fn lemma_reflect_stack_reversed(is: IntervalStructure)
    requires
        is.legal_spec(),
    ensures
        ({
            let n = ((is.0 + is.1 + is.2) % 12) as u8;
            let r = reflect4(stack_from_zero(is), n);
            let t = stack_from_zero(reversed(is));
            r[0] == t[3] && r[1] == t[2] && r[2] == t[1] && r[3] == t[0]
        }),
{
    lemma_reverse_stack_entries(is.0, is.1, is.2);
}

/// **Self-duality of the orbits.** Reading a legal stacking backwards (the
/// quartal reading of the same chord) gives a chord of the same orbit.
pub proof fn lemma_reading_backwards_keeps_orbit(is: IntervalStructure)
    requires
        is.legal_spec(),
        distinct4(stack_from_zero(is)),
    ensures
        distinct4(stack_from_zero(reversed(is))),
        stacked_chord(is).wf(),
        stacked_chord(reversed(is)).wf(),
        classify_spec(stacked_chord(reversed(is))) == classify_spec(stacked_chord(is)),
{
    let s = stack_from_zero(is);
    let n = ((is.0 + is.1 + is.2) % 12) as u8;
    let t = stack_from_zero(reversed(is));
    let c = stacked_chord(is);
    lemma_sorted4(s);
    super::fiber::lemma_distinct_sorted(s, c.pcs);
    lemma_reflect_stack_reversed(is);
    lemma_images_distinct(s, n);
    let r = reflect4(s, n);
    assert(same_elements4(r, t)) by {
        assert forall|v: u8| #![auto] count4(r, v) == count4(t, v) by {}
    }
    assert(distinct4(t));
    lemma_sorted4(t);
    super::fiber::lemma_distinct_sorted(t, sorted4(t));
    lemma_reflect_same(s, c.pcs, n);
    lemma_same_flip(reflect4(s, n), reflect4(c.pcs, n));
    lemma_same_chain(reflect4(c.pcs, n), r, t);
    lemma_same_sorted(reflect4(c.pcs, n), t);
    assert(invert_transpose_spec(c, n) == stacked_chord(reversed(is)));
    lemma_classify_invariant(c, n);
}


// ───────────────────────── distinct representatives ─────────────────────────

/// `x` is one of the entries of `b`.
pub open spec fn member4(b: [u8; 4], x: u8) -> bool {
    b[0] == x || b[1] == x || b[2] == x || b[3] == x
}

/// 1 when the pitch class `d` semitones above `v` is in `a`, else 0.
pub open spec fn hit(a: [u8; 4], d: u8, v: u8) -> int {
    if member4(a, ((v + d) % 12) as u8) {
        1
    } else {
        0
    }
}

/// The number of entries of `a` that have another entry `d` semitones above them.
pub open spec fn pair_count(a: [u8; 4], d: u8) -> int {
    hit(a, d, a[0]) + hit(a, d, a[1]) + hit(a, d, a[2]) + hit(a, d, a[3])
}

/// The interval content of a set of pitch classes: for each interval class
/// 1 to 6, the number of ordered pairs of its members that lie that many
/// semitones apart, upward or downward.
#[verifier::opaque]
pub open spec fn interval_content(a: [u8; 4]) -> (int, int, int, int, int, int) {
    (
        pair_count(a, 1) + pair_count(a, 11),
        pair_count(a, 2) + pair_count(a, 10),
        pair_count(a, 3) + pair_count(a, 9),
        pair_count(a, 4) + pair_count(a, 8),
        pair_count(a, 5) + pair_count(a, 7),
        pair_count(a, 6) + pair_count(a, 6),
    )
}

/// A sum over the entries of a rearrangement of distinct pitch classes is
/// the sum over the entries of the original.
pub(crate) proof fn lemma_sum_rearranged(x: [u8; 4], y: [u8; 4], f: spec_fn(u8) -> int)
    requires
        distinct4(x),
        x[0] <= 11 && x[1] <= 11 && x[2] <= 11 && x[3] <= 11,
        same_elements4(x, y),
    ensures
        f(y[0]) + f(y[1]) + f(y[2]) + f(y[3]) == f(x[0]) + f(x[1]) + f(x[2]) + f(x[3]),
{
    lemma_rearranged_range(x, y);
    assert(x[0] == x[0]);
    assert(x[1] == x[1]);
    assert(x[2] == x[2]);
    assert(x[3] == x[3]);
    let j0 = choose|j: int| 0 <= j < 4 && #[trigger] y[j] == x[0];
    let j1 = choose|j: int| 0 <= j < 4 && #[trigger] y[j] == x[1];
    let j2 = choose|j: int| 0 <= j < 4 && #[trigger] y[j] == x[2];
    let j3 = choose|j: int| 0 <= j < 4 && #[trigger] y[j] == x[3];
    assert(j0 != j1 && j0 != j2 && j0 != j3 && j1 != j2 && j1 != j3 && j2 != j3);
}

/// Rearranging distinct pitch classes keeps their interval content.
proof fn lemma_content_rearranged(x: [u8; 4], y: [u8; 4])
    requires
        distinct4(x),
        x[0] <= 11 && x[1] <= 11 && x[2] <= 11 && x[3] <= 11,
        same_elements4(x, y),
    ensures
        interval_content(y) == interval_content(x),
{
    reveal(interval_content);
    assert forall|v: u8| #[trigger] member4(y, v) == member4(x, v) by {
        assert(count4(x, v) == count4(y, v));
    }
    assert forall|d: u8| #[trigger] pair_count(y, d) == pair_count(x, d) by {
        lemma_sum_rearranged(x, y, |v: u8| hit(x, d, v));
        assert(hit(y, d, y[0]) == hit(x, d, y[0]));
        assert(hit(y, d, y[1]) == hit(x, d, y[1]));
        assert(hit(y, d, y[2]) == hit(x, d, y[2]));
        assert(hit(y, d, y[3]) == hit(x, d, y[3]));
    }
}

proof fn lemma_shift_step(x: u8, y: u8, n: u8, d: u8)
    by (bit_vector)
    requires
        x < 12,
        y < 12,
        d < 12,
    ensures
        (((y + n) % 12) as u8 == ((((x + n) % 12) as u8 + d) % 12) as u8) == (y == ((x + d) % 12) as u8),
{
}

proof fn lemma_reflect_step(x: u8, y: u8, n: u8, d: u8)
    by (bit_vector)
    requires
        x < 12,
        y < 12,
        1 <= d < 12,
    ensures
        (((n % 12 + 12 - y) % 12) as u8 == ((((n % 12 + 12 - x) % 12) as u8 + d) % 12) as u8) == (y
            == ((x + (12 - d) as u8) % 12) as u8),
{
}

/// Transposing keeps the number of entries with another entry `d` above.
proof fn lemma_pair_count_shift(a: [u8; 4], n: u8, d: u8)
    requires
        a[0] <= 11 && a[1] <= 11 && a[2] <= 11 && a[3] <= 11,
        d < 12,
    ensures
        pair_count(shift4(a, n), d) == pair_count(a, d),
{
    assert forall|p: int, q: int| 0 <= p < 4 && 0 <= q < 4 implies (#[trigger] shift4(a, n)[q] == ((#[trigger] shift4(a, n)[p] + d) % 12) as u8) == (a[q] == ((a[p] + d) % 12) as u8) by {
        lemma_shift_step(a[p], a[q], n, d);
    }
}

/// Inverting turns the entries with another entry `d` above into those
/// with another entry `d` below.
proof fn lemma_pair_count_reflect(a: [u8; 4], n: u8, d: u8)
    requires
        a[0] <= 11 && a[1] <= 11 && a[2] <= 11 && a[3] <= 11,
        1 <= d < 12,
    ensures
        pair_count(reflect4(a, n), d) == pair_count(a, (12 - d) as u8),
{
    assert forall|p: int, q: int| 0 <= p < 4 && 0 <= q < 4 implies (#[trigger] reflect4(a, n)[q] == ((#[trigger] reflect4(a, n)[p] + d) % 12) as u8) == (a[q] == ((a[p] + (12 - d) as u8) % 12) as u8) by {
        lemma_reflect_step(a[p], a[q], n, d);
    }
}

/// Transposing or inverting pitch classes keeps their interval content.
proof fn lemma_content_image(a: [u8; 4], k: int)
    requires
        a[0] <= 11 && a[1] <= 11 && a[2] <= 11 && a[3] <= 11,
        0 <= k < 24,
    ensures
        interval_content(image4(a, k)) == interval_content(a),
{
    reveal(interval_content);
    if k < 12 {
        let n = k as u8;
        lemma_pair_count_shift(a, n, 1);
        lemma_pair_count_shift(a, n, 2);
        lemma_pair_count_shift(a, n, 3);
        lemma_pair_count_shift(a, n, 4);
        lemma_pair_count_shift(a, n, 5);
        lemma_pair_count_shift(a, n, 6);
        lemma_pair_count_shift(a, n, 7);
        lemma_pair_count_shift(a, n, 8);
        lemma_pair_count_shift(a, n, 9);
        lemma_pair_count_shift(a, n, 10);
        lemma_pair_count_shift(a, n, 11);
    } else {
        let n = (k - 12) as u8;
        lemma_pair_count_reflect(a, n, 1);
        lemma_pair_count_reflect(a, n, 2);
        lemma_pair_count_reflect(a, n, 3);
        lemma_pair_count_reflect(a, n, 4);
        lemma_pair_count_reflect(a, n, 5);
        lemma_pair_count_reflect(a, n, 6);
        lemma_pair_count_reflect(a, n, 7);
        lemma_pair_count_reflect(a, n, 8);
        lemma_pair_count_reflect(a, n, 9);
        lemma_pair_count_reflect(a, n, 10);
        lemma_pair_count_reflect(a, n, 11);
    }
}

/// Chords related by transposition or inversion have the same interval content.
pub proof fn lemma_orbit_keeps_content(c: PcChord, x: PcChord)
    requires
        c.wf(),
        orbit_spec(c).contains(x),
    ensures
        interval_content(x.pcs) == interval_content(c.pcs),
{
    lemma_orbit_members(c, 24, x);
    let k = choose|k: int| 0 <= k < 24 && ti_image(c, k) == x;
    lemma_image_wf(c, k);
    let m = image4(c.pcs, k);
    assert(m[0] <= 11 && m[1] <= 11 && m[2] <= 11 && m[3] <= 11);
    lemma_content_rearranged(m, x.pcs);
    lemma_content_image(c.pcs, k);
}

/// The representative stacking of the `i`-th orbit.
spec fn rep_stack(i: int) -> [u8; 4] {
    stack_from_zero(all_orbits()[i].rep_spec())
}

/// The orbit at each position of the declaration order has that position.
proof fn lemma_index_of(i: int)
    requires
        0 <= i < 14,
    ensures
        orbit_index(all_orbits()[i]) == i,
{
}

/// The representative stackings of the 14 orbits.
proof fn lemma_rep_stacks()
    ensures
        rep_stack(0) == [0u8, 7u8, 2u8, 9u8],
        rep_stack(1) == [0u8, 7u8, 1u8, 8u8],
        rep_stack(2) == [0u8, 7u8, 3u8, 10u8],
        rep_stack(3) == [0u8, 6u8, 1u8, 7u8],
        rep_stack(4) == [0u8, 6u8, 2u8, 8u8],
        rep_stack(5) == [0u8, 8u8, 3u8, 11u8],
        rep_stack(6) == [0u8, 8u8, 2u8, 10u8],
        rep_stack(7) == [0u8, 7u8, 2u8, 8u8],
        rep_stack(8) == [0u8, 8u8, 3u8, 10u8],
        rep_stack(9) == [0u8, 8u8, 2u8, 9u8],
        rep_stack(10) == [0u8, 8u8, 3u8, 9u8],
        rep_stack(11) == [0u8, 7u8, 3u8, 11u8],
        rep_stack(12) == [0u8, 7u8, 3u8, 9u8],
        rep_stack(13) == [0u8, 6u8, 2u8, 10u8],
{
}

/// The interval contents of the 14 representative stackings.
#[verifier::spinoff_prover]
proof fn lemma_rep_content_values()
    ensures
        interval_content([0u8, 7u8, 2u8, 9u8]) == (0int, 4int, 2int, 0int, 6int, 0int),
        interval_content([0u8, 7u8, 1u8, 8u8]) == (4int, 0int, 0int, 2int, 4int, 4int),
        interval_content([0u8, 7u8, 3u8, 10u8]) == (0int, 2int, 4int, 2int, 4int, 0int),
        interval_content([0u8, 6u8, 1u8, 7u8]) == (4int, 0int, 0int, 0int, 4int, 8int),
        interval_content([0u8, 6u8, 2u8, 8u8]) == (0int, 4int, 0int, 4int, 0int, 8int),
        interval_content([0u8, 8u8, 3u8, 11u8]) == (2int, 0int, 4int, 4int, 2int, 0int),
        interval_content([0u8, 8u8, 2u8, 10u8]) == (0int, 6int, 0int, 4int, 0int, 4int),
        interval_content([0u8, 7u8, 2u8, 8u8]) == (2int, 2int, 0int, 2int, 4int, 4int),
        interval_content([0u8, 8u8, 3u8, 10u8]) == (0int, 4int, 2int, 2int, 4int, 0int),
        interval_content([0u8, 8u8, 2u8, 9u8]) == (2int, 2int, 2int, 2int, 2int, 4int),
        interval_content([0u8, 8u8, 3u8, 9u8]) == (2int, 0int, 4int, 2int, 2int, 4int),
        interval_content([0u8, 7u8, 3u8, 11u8]) == (2int, 0int, 2int, 6int, 2int, 0int),
        interval_content([0u8, 7u8, 3u8, 9u8]) == (0int, 2int, 4int, 2int, 2int, 4int),
        interval_content([0u8, 6u8, 2u8, 10u8]) == (0int, 4int, 0int, 6int, 0int, 4int),
{
    reveal(interval_content);
}

/// The interval contents of the 14 representative stackings, by position.
spec fn content_table(i: int) -> (int, int, int, int, int, int) {
    if i == 0 {
        (0int, 4int, 2int, 0int, 6int, 0int)
    } else if i == 1 {
        (4int, 0int, 0int, 2int, 4int, 4int)
    } else if i == 2 {
        (0int, 2int, 4int, 2int, 4int, 0int)
    } else if i == 3 {
        (4int, 0int, 0int, 0int, 4int, 8int)
    } else if i == 4 {
        (0int, 4int, 0int, 4int, 0int, 8int)
    } else if i == 5 {
        (2int, 0int, 4int, 4int, 2int, 0int)
    } else if i == 6 {
        (0int, 6int, 0int, 4int, 0int, 4int)
    } else if i == 7 {
        (2int, 2int, 0int, 2int, 4int, 4int)
    } else if i == 8 {
        (0int, 4int, 2int, 2int, 4int, 0int)
    } else if i == 9 {
        (2int, 2int, 2int, 2int, 2int, 4int)
    } else if i == 10 {
        (2int, 0int, 4int, 2int, 2int, 4int)
    } else if i == 11 {
        (2int, 0int, 2int, 6int, 2int, 0int)
    } else if i == 12 {
        (0int, 2int, 4int, 2int, 2int, 4int)
    } else {
        (0int, 4int, 0int, 6int, 0int, 4int)
    }
}

/// The interval content of the `i`-th representative stacking.
proof fn lemma_content_at(i: int)
    requires
        0 <= i < 14,
    ensures
        interval_content(rep_stack(i)) == content_table(i),
{
    lemma_rep_stacks();
    lemma_rep_content_values();
}

/// The 14 interval contents all differ.
proof fn lemma_table_distinct(i: int, j: int)
    requires
        0 <= i < 14,
        0 <= j < 14,
        i != j,
    ensures
        content_table(i) != content_table(j),
{
}

/// The representative chord of each orbit is a chord with the interval
/// content of its stacking.
proof fn lemma_rep_contents(o: Orbit)
    ensures
        rep_chord(o).wf(),
        interval_content(rep_chord(o).pcs) == interval_content(rep_stack(orbit_index(o))),
        0 <= orbit_index(o) < 14,
        all_orbits()[orbit_index(o)] == o,
{
    let st = rep_stack(orbit_index(o));
    assert(st == stack_from_zero(o.rep_spec()));
    lemma_sorted4(st);
    super::fiber::lemma_distinct_sorted(st, sorted4(st));
    lemma_content_rearranged(st, rep_chord(o).pcs);
}

/// The representative chords of two different orbits are not related by
/// any transposition or inversion.
pub proof fn lemma_reps_unrelated(o: Orbit, p: Orbit)
    requires
        o != p,
    ensures
        !orbit_spec(rep_chord(o)).contains(rep_chord(p)),
{
    lemma_rep_contents(o);
    lemma_rep_contents(p);
    lemma_content_at(orbit_index(o));
    lemma_content_at(orbit_index(p));
    lemma_table_distinct(orbit_index(o), orbit_index(p));
    if orbit_spec(rep_chord(o)).contains(rep_chord(p)) {
        lemma_orbit_keeps_content(rep_chord(o), rep_chord(p));
        assert(interval_content(rep_stack(orbit_index(o))) != interval_content(rep_stack(orbit_index(p))));
    }
}

/// The search from `i` on, over orbits up to that of `o`, finds `o` for the
/// representative chord of `o`.
proof fn lemma_classify_rep_from(o: Orbit, i: int)
    requires
        0 <= i <= orbit_index(o),
    ensures
        classify_from(rep_chord(o), i) == Some(o),
    decreases orbit_index(o) - i,
{
    lemma_rep_contents(o);
    if i == orbit_index(o) {
        lemma_identity_image(rep_chord(o));
        lemma_orbit_members(rep_chord(o), 24, rep_chord(o));
        assert(ti_image(rep_chord(o), 0) == rep_chord(o));
    } else {
        lemma_index_of(i);
        lemma_reps_unrelated(o, all_orbits()[i]);
        lemma_classify_rep_from(o, i + 1);
    }
}

/// **Representatives classify to their own orbit.** The chord stacked from
/// pitch class 0 by an orbit's representative intervals is classified into
/// that orbit.
pub proof fn lemma_rep_classified(o: Orbit)
    ensures
        classify_spec(rep_chord(o)) == Some(o),
{
    lemma_rep_contents(o);
    lemma_classify_rep_from(o, 0);
}

/// The search over orbits from `i` on returns only an orbit whose
/// representative chord lies in the chord's T/I orbit.
pub(crate) proof fn lemma_classified_rep_in_orbit(c: PcChord, i: int)
    requires
        classify_from(c, i) is Some,
    ensures
        orbit_spec(c).contains(rep_chord(classify_from(c, i)->0)),
    decreases 14 - i,
{
    if 0 <= i < 14 && !orbit_spec(c).contains(rep_chord(all_orbits()[i])) {
        lemma_classified_rep_in_orbit(c, i + 1);
    }
}

/// **Classification is exact.** A chord is classified into orbit `o`
/// exactly when `o`'s representative chord is a transposition or inversion
/// of it.
pub proof fn lemma_classify_exact(c: PcChord, o: Orbit)
    requires
        c.wf(),
    ensures
        classify_spec(c) == Some(o) <==> orbit_spec(c).contains(rep_chord(o)),
{
    lemma_rep_contents(o);
    if orbit_spec(c).contains(rep_chord(o)) {
        lemma_classify_found(c, 0, orbit_index(o));
        let p = classify_spec(c)->0;
        lemma_classified_rep_in_orbit(c, 0);
        if p != o {
            lemma_orbit_members(c, 24, rep_chord(o));
            let k = choose|k: int| 0 <= k < 24 && ti_image(c, k) == rep_chord(o);
            lemma_orbit_same(c, k, rep_chord(p));
            lemma_reps_unrelated(o, p);
        }
    }
    if classify_spec(c) == Some(o) {
        lemma_classified_rep_in_orbit(c, 0);
    }
}

} // verus!

//! The degree of each orbit in the base-space graph: the neighbours of an
//! orbit's representative chord are the chords reached by moving one of its
//! pitch classes a semitone, and as many of them as the orbit's degree are
//! legal quintal chords.

use vstd::prelude::*;
use vstd::relations::injective_on;

use super::base_space::{
    adjacent_spec, base_space_wf, chord_in_base, chord_key, has_pc, is_neighbor_row, semitone_apart, shared_count,
};
use super::classification::{
    image4, inverse_index, lemma_base_chord_classified, lemma_classified_rep_in_orbit, lemma_image_inverse,
    lemma_image_wf, lemma_ordering_same, lemma_rearranged_range, lemma_reflect_same, lemma_rep_classified,
    lemma_same_chain, lemma_same_flip, lemma_shift_same, lemma_sum_rearranged,
};
use super::group::{lemma_orbit_members, ti_image};
use super::orbit::{classify_spec, rep_chord, Orbit};
use super::types::{
    ascending4, count4, distinct4, first_legal_from, fwd, is_sorting_of, lemma_first_legal_bounds, lemma_sorted4,
    ordering_at, perm4, same_elements4, sorted4, walk_structure, IntervalStructure, PcChord,
};

verus! {

/// The chord with pitch classes `a`.
pub open spec fn pcs_chord(a: [u8; 4]) -> PcChord {
    PcChord { pcs: a }
}

/// The chords of the base space adjacent to `c`.
pub open spec fn base_neighbours(c: PcChord) -> Set<PcChord> {
    Set::new(|b: PcChord| chord_in_base(b) && adjacent_spec(c, b))
}

/// A legal ordering at `k` makes the search from any `j <= k` succeed.
proof fn lemma_legal_at(pcs: [u8; 4], k: int, j: int)
    requires
        0 <= j <= k < 24,
        walk_structure(ordering_at(pcs, k)).legal_spec(),
    ensures
        first_legal_from(pcs, j) is Some,
    decreases k - j,
{
    if !walk_structure(ordering_at(pcs, j)).legal_spec() {
        lemma_legal_at(pcs, k, j + 1);
    }
}

/// With no legal ordering from `j` on, the search from `j` fails.
proof fn lemma_no_legal_from(pcs: [u8; 4], j: int)
    requires
        0 <= j <= 24,
        forall|k: int| j <= k < 24 ==> !#[trigger] walk_structure(ordering_at(pcs, k)).legal_spec(),
    ensures
        first_legal_from(pcs, j) is None,
    decreases 24 - j,
{
    if j < 24 {
        lemma_no_legal_from(pcs, j + 1);
    }
}

/// No ordering of `pcs` has a legal quintal walk.
proof fn lemma_no_legal_ordering(pcs: [u8; 4])
    requires
        forall|k: int| 0 <= k < 24 ==> !#[trigger] walk_structure(ordering_at(pcs, k)).legal_spec(),
    ensures
        first_legal_from(pcs, 0) is None,
{
    lemma_no_legal_from(pcs, 0);
}

/// The ascending rearrangement of `a` is `s` when `s` is ascending with the
/// same elements.
proof fn lemma_rep_literal(a: [u8; 4], s: [u8; 4])
    requires
        ascending4(s),
        forall|x: u8| #[trigger] count4(a, x) == count4(s, x),
    ensures
        sorted4(a) == s,
{
    lemma_sorted4(a);
    assert(is_sorting_of(a, s));
}

/// Adjacent chords differ in one pitch class each: the pitch class of `c`
/// missing from `b` lies a semitone from the pitch class of `b` missing
/// from `c`, and the others are shared.
proof fn lemma_adjacent_members(c: PcChord, b: PcChord)
    requires
        c.wf(),
        b.wf(),
        adjacent_spec(c, b),
    ensures
        exists|i: int, j: int|
            0 <= i < 4 && 0 <= j < 4 && !has_pc(b, #[trigger] c.pcs[i]) && !has_pc(c, #[trigger] b.pcs[j])
                && semitone_apart(c.pcs[i], b.pcs[j]) && (forall|k: int| 0 <= k < 4 && k != i ==> has_pc(b, c.pcs[k]))
                && (forall|k: int| 0 <= k < 4 && k != j ==> has_pc(c, b.pcs[k])),
{
    let (i, j) = choose|i: int, j: int|
        0 <= i < 4 && 0 <= j < 4 && !has_pc(b, #[trigger] c.pcs[i]) && !has_pc(c, #[trigger] b.pcs[j])
            && semitone_apart(c.pcs[i], b.pcs[j]);
    assert(shared_count(c, b) == 3);
    assert(shared_count(b, c) == 3);
    assert(forall|k: int| 0 <= k < 4 && k != i ==> has_pc(b, c.pcs[k]));
    assert(forall|k: int| 0 <= k < 4 && k != j ==> has_pc(c, b.pcs[k]));
}

/// The base chords adjacent to the representative chord of Q777.
proof fn lemma_neighbours_q777()
    ensures
        rep_chord(Orbit::Q777) == pcs_chord([0u8, 2u8, 7u8, 9u8]),
        base_neighbours(pcs_chord([0u8, 2u8, 7u8, 9u8])) == (set![
            pcs_chord([1u8, 2u8, 7u8, 9u8]),
            pcs_chord([2u8, 7u8, 9u8, 11u8]),
            pcs_chord([0u8, 3u8, 7u8, 9u8]),
            pcs_chord([0u8, 1u8, 7u8, 9u8]),
            pcs_chord([0u8, 2u8, 8u8, 9u8]),
            pcs_chord([0u8, 2u8, 6u8, 9u8]),
            pcs_chord([0u8, 2u8, 7u8, 10u8]),
            pcs_chord([0u8, 2u8, 7u8, 8u8]),
        ]),
        chord_in_base(pcs_chord([0u8, 2u8, 7u8, 9u8])),
{
    lemma_rep_literal([0u8, 7u8, 2u8, 9u8], [0u8, 2u8, 7u8, 9u8]);
    let c = pcs_chord([0u8, 2u8, 7u8, 9u8]);
    lemma_legal_at([0u8, 2u8, 7u8, 9u8], 2, 0);
    lemma_legal_at([1u8, 2u8, 7u8, 9u8], 2, 0);
    lemma_legal_at([2u8, 7u8, 9u8, 11u8], 20, 0);
    lemma_legal_at([0u8, 3u8, 7u8, 9u8], 2, 0);
    lemma_legal_at([0u8, 1u8, 7u8, 9u8], 2, 0);
    lemma_legal_at([0u8, 2u8, 8u8, 9u8], 2, 0);
    lemma_legal_at([0u8, 2u8, 6u8, 9u8], 2, 0);
    lemma_legal_at([0u8, 2u8, 7u8, 10u8], 2, 0);
    lemma_legal_at([0u8, 2u8, 7u8, 8u8], 2, 0);
    let nb = set![
        pcs_chord([1u8, 2u8, 7u8, 9u8]),
        pcs_chord([2u8, 7u8, 9u8, 11u8]),
        pcs_chord([0u8, 3u8, 7u8, 9u8]),
        pcs_chord([0u8, 1u8, 7u8, 9u8]),
        pcs_chord([0u8, 2u8, 8u8, 9u8]),
        pcs_chord([0u8, 2u8, 6u8, 9u8]),
        pcs_chord([0u8, 2u8, 7u8, 10u8]),
        pcs_chord([0u8, 2u8, 7u8, 8u8]),
    ];
    assert forall|b: PcChord| base_neighbours(c).contains(b) <==> nb.contains(b) by {
        if base_neighbours(c).contains(b) {
            lemma_adjacent_members(c, b);
            if b.pcs[0] == 1 && b.pcs[1] == 2 && b.pcs[2] == 7 && b.pcs[3] == 9 {
                assert(b.pcs =~= [1u8, 2u8, 7u8, 9u8]);
            }
            if b.pcs[0] == 2 && b.pcs[1] == 7 && b.pcs[2] == 9 && b.pcs[3] == 11 {
                assert(b.pcs =~= [2u8, 7u8, 9u8, 11u8]);
            }
            if b.pcs[0] == 0 && b.pcs[1] == 3 && b.pcs[2] == 7 && b.pcs[3] == 9 {
                assert(b.pcs =~= [0u8, 3u8, 7u8, 9u8]);
            }
            if b.pcs[0] == 0 && b.pcs[1] == 1 && b.pcs[2] == 7 && b.pcs[3] == 9 {
                assert(b.pcs =~= [0u8, 1u8, 7u8, 9u8]);
            }
            if b.pcs[0] == 0 && b.pcs[1] == 2 && b.pcs[2] == 8 && b.pcs[3] == 9 {
                assert(b.pcs =~= [0u8, 2u8, 8u8, 9u8]);
            }
            if b.pcs[0] == 0 && b.pcs[1] == 2 && b.pcs[2] == 6 && b.pcs[3] == 9 {
                assert(b.pcs =~= [0u8, 2u8, 6u8, 9u8]);
            }
            if b.pcs[0] == 0 && b.pcs[1] == 2 && b.pcs[2] == 7 && b.pcs[3] == 10 {
                assert(b.pcs =~= [0u8, 2u8, 7u8, 10u8]);
            }
            if b.pcs[0] == 0 && b.pcs[1] == 2 && b.pcs[2] == 7 && b.pcs[3] == 8 {
                assert(b.pcs =~= [0u8, 2u8, 7u8, 8u8]);
            }
        }
        if b == pcs_chord([1u8, 2u8, 7u8, 9u8]) {
            assert(!has_pc(b, c.pcs[0]) && !has_pc(c, b.pcs[0]) && semitone_apart(c.pcs[0], b.pcs[0]));
        }
        if b == pcs_chord([2u8, 7u8, 9u8, 11u8]) {
            assert(!has_pc(b, c.pcs[0]) && !has_pc(c, b.pcs[3]) && semitone_apart(c.pcs[0], b.pcs[3]));
        }
        if b == pcs_chord([0u8, 3u8, 7u8, 9u8]) {
            assert(!has_pc(b, c.pcs[1]) && !has_pc(c, b.pcs[1]) && semitone_apart(c.pcs[1], b.pcs[1]));
        }
        if b == pcs_chord([0u8, 1u8, 7u8, 9u8]) {
            assert(!has_pc(b, c.pcs[1]) && !has_pc(c, b.pcs[1]) && semitone_apart(c.pcs[1], b.pcs[1]));
        }
        if b == pcs_chord([0u8, 2u8, 8u8, 9u8]) {
            assert(!has_pc(b, c.pcs[2]) && !has_pc(c, b.pcs[2]) && semitone_apart(c.pcs[2], b.pcs[2]));
        }
        if b == pcs_chord([0u8, 2u8, 6u8, 9u8]) {
            assert(!has_pc(b, c.pcs[2]) && !has_pc(c, b.pcs[2]) && semitone_apart(c.pcs[2], b.pcs[2]));
        }
        if b == pcs_chord([0u8, 2u8, 7u8, 10u8]) {
            assert(!has_pc(b, c.pcs[3]) && !has_pc(c, b.pcs[3]) && semitone_apart(c.pcs[3], b.pcs[3]));
        }
        if b == pcs_chord([0u8, 2u8, 7u8, 8u8]) {
            assert(!has_pc(b, c.pcs[3]) && !has_pc(c, b.pcs[3]) && semitone_apart(c.pcs[3], b.pcs[3]));
        }
    }
    assert(base_neighbours(c) =~= nb);
}

/// The base chords adjacent to the representative chord of Q767.
proof fn lemma_neighbours_q767()
    ensures
        rep_chord(Orbit::Q767) == pcs_chord([0u8, 1u8, 7u8, 8u8]),
        base_neighbours(pcs_chord([0u8, 1u8, 7u8, 8u8])) == (set![
            pcs_chord([1u8, 7u8, 8u8, 11u8]),
            pcs_chord([0u8, 2u8, 7u8, 8u8]),
            pcs_chord([0u8, 1u8, 6u8, 8u8]),
            pcs_chord([0u8, 1u8, 7u8, 9u8]),
        ]),
        chord_in_base(pcs_chord([0u8, 1u8, 7u8, 8u8])),
{
    lemma_rep_literal([0u8, 7u8, 1u8, 8u8], [0u8, 1u8, 7u8, 8u8]);
    let c = pcs_chord([0u8, 1u8, 7u8, 8u8]);
    lemma_legal_at([0u8, 1u8, 7u8, 8u8], 2, 0);
    lemma_legal_at([1u8, 7u8, 8u8, 11u8], 20, 0);
    lemma_legal_at([0u8, 2u8, 7u8, 8u8], 2, 0);
    lemma_legal_at([0u8, 1u8, 6u8, 8u8], 2, 0);
    lemma_legal_at([0u8, 1u8, 7u8, 9u8], 2, 0);
    let nb = set![
        pcs_chord([1u8, 7u8, 8u8, 11u8]),
        pcs_chord([0u8, 2u8, 7u8, 8u8]),
        pcs_chord([0u8, 1u8, 6u8, 8u8]),
        pcs_chord([0u8, 1u8, 7u8, 9u8]),
    ];
    assert forall|b: PcChord| base_neighbours(c).contains(b) <==> nb.contains(b) by {
        if base_neighbours(c).contains(b) {
            lemma_adjacent_members(c, b);
            if b.pcs[0] == 1 && b.pcs[1] == 7 && b.pcs[2] == 8 && b.pcs[3] == 11 {
                assert(b.pcs =~= [1u8, 7u8, 8u8, 11u8]);
            }
            if b.pcs[0] == 0 && b.pcs[1] == 2 && b.pcs[2] == 7 && b.pcs[3] == 8 {
                assert(b.pcs =~= [0u8, 2u8, 7u8, 8u8]);
            }
            if b.pcs[0] == 0 && b.pcs[1] == 1 && b.pcs[2] == 6 && b.pcs[3] == 8 {
                assert(b.pcs =~= [0u8, 1u8, 6u8, 8u8]);
            }
            if b.pcs[0] == 0 && b.pcs[1] == 1 && b.pcs[2] == 7 && b.pcs[3] == 9 {
                assert(b.pcs =~= [0u8, 1u8, 7u8, 9u8]);
            }
        }
        if b == pcs_chord([1u8, 7u8, 8u8, 11u8]) {
            assert(!has_pc(b, c.pcs[0]) && !has_pc(c, b.pcs[3]) && semitone_apart(c.pcs[0], b.pcs[3]));
        }
        if b == pcs_chord([0u8, 2u8, 7u8, 8u8]) {
            assert(!has_pc(b, c.pcs[1]) && !has_pc(c, b.pcs[1]) && semitone_apart(c.pcs[1], b.pcs[1]));
        }
        if b == pcs_chord([0u8, 1u8, 6u8, 8u8]) {
            assert(!has_pc(b, c.pcs[2]) && !has_pc(c, b.pcs[2]) && semitone_apart(c.pcs[2], b.pcs[2]));
        }
        if b == pcs_chord([0u8, 1u8, 7u8, 9u8]) {
            assert(!has_pc(b, c.pcs[3]) && !has_pc(c, b.pcs[3]) && semitone_apart(c.pcs[3], b.pcs[3]));
        }
    }
    assert(base_neighbours(c) =~= nb);
}

/// The base chords adjacent to the representative chord of Q787.
proof fn lemma_neighbours_q787()
    ensures
        rep_chord(Orbit::Q787) == pcs_chord([0u8, 3u8, 7u8, 10u8]),
        base_neighbours(pcs_chord([0u8, 3u8, 7u8, 10u8])) == (set![
            pcs_chord([1u8, 3u8, 7u8, 10u8]),
            pcs_chord([3u8, 7u8, 10u8, 11u8]),
            pcs_chord([0u8, 4u8, 7u8, 10u8]),
            pcs_chord([0u8, 2u8, 7u8, 10u8]),
            pcs_chord([0u8, 3u8, 8u8, 10u8]),
            pcs_chord([0u8, 3u8, 6u8, 10u8]),
            pcs_chord([0u8, 3u8, 7u8, 11u8]),
            pcs_chord([0u8, 3u8, 7u8, 9u8]),
        ]),
        chord_in_base(pcs_chord([0u8, 3u8, 7u8, 10u8])),
{
    lemma_rep_literal([0u8, 7u8, 3u8, 10u8], [0u8, 3u8, 7u8, 10u8]);
    let c = pcs_chord([0u8, 3u8, 7u8, 10u8]);
    lemma_legal_at([0u8, 3u8, 7u8, 10u8], 2, 0);
    lemma_legal_at([1u8, 3u8, 7u8, 10u8], 2, 0);
    lemma_legal_at([3u8, 7u8, 10u8, 11u8], 20, 0);
    lemma_legal_at([0u8, 4u8, 7u8, 10u8], 20, 0);
    lemma_legal_at([0u8, 2u8, 7u8, 10u8], 2, 0);
    lemma_legal_at([0u8, 3u8, 8u8, 10u8], 2, 0);
    lemma_legal_at([0u8, 3u8, 6u8, 10u8], 11, 0);
    lemma_legal_at([0u8, 3u8, 7u8, 11u8], 2, 0);
    lemma_legal_at([0u8, 3u8, 7u8, 9u8], 2, 0);
    let nb = set![
        pcs_chord([1u8, 3u8, 7u8, 10u8]),
        pcs_chord([3u8, 7u8, 10u8, 11u8]),
        pcs_chord([0u8, 4u8, 7u8, 10u8]),
        pcs_chord([0u8, 2u8, 7u8, 10u8]),
        pcs_chord([0u8, 3u8, 8u8, 10u8]),
        pcs_chord([0u8, 3u8, 6u8, 10u8]),
        pcs_chord([0u8, 3u8, 7u8, 11u8]),
        pcs_chord([0u8, 3u8, 7u8, 9u8]),
    ];
    assert forall|b: PcChord| base_neighbours(c).contains(b) <==> nb.contains(b) by {
        if base_neighbours(c).contains(b) {
            lemma_adjacent_members(c, b);
            if b.pcs[0] == 1 && b.pcs[1] == 3 && b.pcs[2] == 7 && b.pcs[3] == 10 {
                assert(b.pcs =~= [1u8, 3u8, 7u8, 10u8]);
            }
            if b.pcs[0] == 3 && b.pcs[1] == 7 && b.pcs[2] == 10 && b.pcs[3] == 11 {
                assert(b.pcs =~= [3u8, 7u8, 10u8, 11u8]);
            }
            if b.pcs[0] == 0 && b.pcs[1] == 4 && b.pcs[2] == 7 && b.pcs[3] == 10 {
                assert(b.pcs =~= [0u8, 4u8, 7u8, 10u8]);
            }
            if b.pcs[0] == 0 && b.pcs[1] == 2 && b.pcs[2] == 7 && b.pcs[3] == 10 {
                assert(b.pcs =~= [0u8, 2u8, 7u8, 10u8]);
            }
            if b.pcs[0] == 0 && b.pcs[1] == 3 && b.pcs[2] == 8 && b.pcs[3] == 10 {
                assert(b.pcs =~= [0u8, 3u8, 8u8, 10u8]);
            }
            if b.pcs[0] == 0 && b.pcs[1] == 3 && b.pcs[2] == 6 && b.pcs[3] == 10 {
                assert(b.pcs =~= [0u8, 3u8, 6u8, 10u8]);
            }
            if b.pcs[0] == 0 && b.pcs[1] == 3 && b.pcs[2] == 7 && b.pcs[3] == 11 {
                assert(b.pcs =~= [0u8, 3u8, 7u8, 11u8]);
            }
            if b.pcs[0] == 0 && b.pcs[1] == 3 && b.pcs[2] == 7 && b.pcs[3] == 9 {
                assert(b.pcs =~= [0u8, 3u8, 7u8, 9u8]);
            }
        }
        if b == pcs_chord([1u8, 3u8, 7u8, 10u8]) {
            assert(!has_pc(b, c.pcs[0]) && !has_pc(c, b.pcs[0]) && semitone_apart(c.pcs[0], b.pcs[0]));
        }
        if b == pcs_chord([3u8, 7u8, 10u8, 11u8]) {
            assert(!has_pc(b, c.pcs[0]) && !has_pc(c, b.pcs[3]) && semitone_apart(c.pcs[0], b.pcs[3]));
        }
        if b == pcs_chord([0u8, 4u8, 7u8, 10u8]) {
            assert(!has_pc(b, c.pcs[1]) && !has_pc(c, b.pcs[1]) && semitone_apart(c.pcs[1], b.pcs[1]));
        }
        if b == pcs_chord([0u8, 2u8, 7u8, 10u8]) {
            assert(!has_pc(b, c.pcs[1]) && !has_pc(c, b.pcs[1]) && semitone_apart(c.pcs[1], b.pcs[1]));
        }
        if b == pcs_chord([0u8, 3u8, 8u8, 10u8]) {
            assert(!has_pc(b, c.pcs[2]) && !has_pc(c, b.pcs[2]) && semitone_apart(c.pcs[2], b.pcs[2]));
        }
        if b == pcs_chord([0u8, 3u8, 6u8, 10u8]) {
            assert(!has_pc(b, c.pcs[2]) && !has_pc(c, b.pcs[2]) && semitone_apart(c.pcs[2], b.pcs[2]));
        }
        if b == pcs_chord([0u8, 3u8, 7u8, 11u8]) {
            assert(!has_pc(b, c.pcs[3]) && !has_pc(c, b.pcs[3]) && semitone_apart(c.pcs[3], b.pcs[3]));
        }
        if b == pcs_chord([0u8, 3u8, 7u8, 9u8]) {
            assert(!has_pc(b, c.pcs[3]) && !has_pc(c, b.pcs[3]) && semitone_apart(c.pcs[3], b.pcs[3]));
        }
    }
    assert(base_neighbours(c) =~= nb);
}

/// The base chords adjacent to the representative chord of Q676.
proof fn lemma_neighbours_q676()
    ensures
        rep_chord(Orbit::Q676) == pcs_chord([0u8, 1u8, 6u8, 7u8]),
        base_neighbours(pcs_chord([0u8, 1u8, 6u8, 7u8])) == (set![
            pcs_chord([1u8, 6u8, 7u8, 11u8]),
            pcs_chord([0u8, 2u8, 6u8, 7u8]),
            pcs_chord([0u8, 1u8, 5u8, 7u8]),
            pcs_chord([0u8, 1u8, 6u8, 8u8]),
        ]),
        chord_in_base(pcs_chord([0u8, 1u8, 6u8, 7u8])),
{
    lemma_rep_literal([0u8, 6u8, 1u8, 7u8], [0u8, 1u8, 6u8, 7u8]);
    let c = pcs_chord([0u8, 1u8, 6u8, 7u8]);
    lemma_legal_at([0u8, 1u8, 6u8, 7u8], 2, 0);
    lemma_legal_at([1u8, 6u8, 7u8, 11u8], 20, 0);
    lemma_legal_at([0u8, 2u8, 6u8, 7u8], 13, 0);
    lemma_legal_at([0u8, 1u8, 5u8, 7u8], 13, 0);
    lemma_legal_at([0u8, 1u8, 6u8, 8u8], 2, 0);
    let nb = set![
        pcs_chord([1u8, 6u8, 7u8, 11u8]),
        pcs_chord([0u8, 2u8, 6u8, 7u8]),
        pcs_chord([0u8, 1u8, 5u8, 7u8]),
        pcs_chord([0u8, 1u8, 6u8, 8u8]),
    ];
    assert forall|b: PcChord| base_neighbours(c).contains(b) <==> nb.contains(b) by {
        if base_neighbours(c).contains(b) {
            lemma_adjacent_members(c, b);
            if b.pcs[0] == 1 && b.pcs[1] == 6 && b.pcs[2] == 7 && b.pcs[3] == 11 {
                assert(b.pcs =~= [1u8, 6u8, 7u8, 11u8]);
            }
            if b.pcs[0] == 0 && b.pcs[1] == 2 && b.pcs[2] == 6 && b.pcs[3] == 7 {
                assert(b.pcs =~= [0u8, 2u8, 6u8, 7u8]);
            }
            if b.pcs[0] == 0 && b.pcs[1] == 1 && b.pcs[2] == 5 && b.pcs[3] == 7 {
                assert(b.pcs =~= [0u8, 1u8, 5u8, 7u8]);
            }
            if b.pcs[0] == 0 && b.pcs[1] == 1 && b.pcs[2] == 6 && b.pcs[3] == 8 {
                assert(b.pcs =~= [0u8, 1u8, 6u8, 8u8]);
            }
        }
        if b == pcs_chord([1u8, 6u8, 7u8, 11u8]) {
            assert(!has_pc(b, c.pcs[0]) && !has_pc(c, b.pcs[3]) && semitone_apart(c.pcs[0], b.pcs[3]));
        }
        if b == pcs_chord([0u8, 2u8, 6u8, 7u8]) {
            assert(!has_pc(b, c.pcs[1]) && !has_pc(c, b.pcs[1]) && semitone_apart(c.pcs[1], b.pcs[1]));
        }
        if b == pcs_chord([0u8, 1u8, 5u8, 7u8]) {
            assert(!has_pc(b, c.pcs[2]) && !has_pc(c, b.pcs[2]) && semitone_apart(c.pcs[2], b.pcs[2]));
        }
        if b == pcs_chord([0u8, 1u8, 6u8, 8u8]) {
            assert(!has_pc(b, c.pcs[3]) && !has_pc(c, b.pcs[3]) && semitone_apart(c.pcs[3], b.pcs[3]));
        }
    }
    assert(base_neighbours(c) =~= nb);
}

/// The base chords adjacent to the representative chord of Q686.
proof fn lemma_neighbours_q686()
    ensures
        rep_chord(Orbit::Q686) == pcs_chord([0u8, 2u8, 6u8, 8u8]),
        base_neighbours(pcs_chord([0u8, 2u8, 6u8, 8u8])) == (set![
            pcs_chord([1u8, 2u8, 6u8, 8u8]),
            pcs_chord([2u8, 6u8, 8u8, 11u8]),
            pcs_chord([0u8, 3u8, 6u8, 8u8]),
            pcs_chord([0u8, 1u8, 6u8, 8u8]),
            pcs_chord([0u8, 2u8, 7u8, 8u8]),
            pcs_chord([0u8, 2u8, 5u8, 8u8]),
            pcs_chord([0u8, 2u8, 6u8, 9u8]),
            pcs_chord([0u8, 2u8, 6u8, 7u8]),
        ]),
        chord_in_base(pcs_chord([0u8, 2u8, 6u8, 8u8])),
{
    lemma_rep_literal([0u8, 6u8, 2u8, 8u8], [0u8, 2u8, 6u8, 8u8]);
    let c = pcs_chord([0u8, 2u8, 6u8, 8u8]);
    lemma_legal_at([0u8, 2u8, 6u8, 8u8], 2, 0);
    lemma_legal_at([1u8, 2u8, 6u8, 8u8], 13, 0);
    lemma_legal_at([2u8, 6u8, 8u8, 11u8], 20, 0);
    lemma_legal_at([0u8, 3u8, 6u8, 8u8], 13, 0);
    lemma_legal_at([0u8, 1u8, 6u8, 8u8], 2, 0);
    lemma_legal_at([0u8, 2u8, 7u8, 8u8], 2, 0);
    lemma_legal_at([0u8, 2u8, 5u8, 8u8], 13, 0);
    lemma_legal_at([0u8, 2u8, 6u8, 9u8], 2, 0);
    lemma_legal_at([0u8, 2u8, 6u8, 7u8], 13, 0);
    let nb = set![
        pcs_chord([1u8, 2u8, 6u8, 8u8]),
        pcs_chord([2u8, 6u8, 8u8, 11u8]),
        pcs_chord([0u8, 3u8, 6u8, 8u8]),
        pcs_chord([0u8, 1u8, 6u8, 8u8]),
        pcs_chord([0u8, 2u8, 7u8, 8u8]),
        pcs_chord([0u8, 2u8, 5u8, 8u8]),
        pcs_chord([0u8, 2u8, 6u8, 9u8]),
        pcs_chord([0u8, 2u8, 6u8, 7u8]),
    ];
    assert forall|b: PcChord| base_neighbours(c).contains(b) <==> nb.contains(b) by {
        if base_neighbours(c).contains(b) {
            lemma_adjacent_members(c, b);
            if b.pcs[0] == 1 && b.pcs[1] == 2 && b.pcs[2] == 6 && b.pcs[3] == 8 {
                assert(b.pcs =~= [1u8, 2u8, 6u8, 8u8]);
            }
            if b.pcs[0] == 2 && b.pcs[1] == 6 && b.pcs[2] == 8 && b.pcs[3] == 11 {
                assert(b.pcs =~= [2u8, 6u8, 8u8, 11u8]);
            }
            if b.pcs[0] == 0 && b.pcs[1] == 3 && b.pcs[2] == 6 && b.pcs[3] == 8 {
                assert(b.pcs =~= [0u8, 3u8, 6u8, 8u8]);
            }
            if b.pcs[0] == 0 && b.pcs[1] == 1 && b.pcs[2] == 6 && b.pcs[3] == 8 {
                assert(b.pcs =~= [0u8, 1u8, 6u8, 8u8]);
            }
            if b.pcs[0] == 0 && b.pcs[1] == 2 && b.pcs[2] == 7 && b.pcs[3] == 8 {
                assert(b.pcs =~= [0u8, 2u8, 7u8, 8u8]);
            }
            if b.pcs[0] == 0 && b.pcs[1] == 2 && b.pcs[2] == 5 && b.pcs[3] == 8 {
                assert(b.pcs =~= [0u8, 2u8, 5u8, 8u8]);
            }
            if b.pcs[0] == 0 && b.pcs[1] == 2 && b.pcs[2] == 6 && b.pcs[3] == 9 {
                assert(b.pcs =~= [0u8, 2u8, 6u8, 9u8]);
            }
            if b.pcs[0] == 0 && b.pcs[1] == 2 && b.pcs[2] == 6 && b.pcs[3] == 7 {
                assert(b.pcs =~= [0u8, 2u8, 6u8, 7u8]);
            }
        }
        if b == pcs_chord([1u8, 2u8, 6u8, 8u8]) {
            assert(!has_pc(b, c.pcs[0]) && !has_pc(c, b.pcs[0]) && semitone_apart(c.pcs[0], b.pcs[0]));
        }
        if b == pcs_chord([2u8, 6u8, 8u8, 11u8]) {
            assert(!has_pc(b, c.pcs[0]) && !has_pc(c, b.pcs[3]) && semitone_apart(c.pcs[0], b.pcs[3]));
        }
        if b == pcs_chord([0u8, 3u8, 6u8, 8u8]) {
            assert(!has_pc(b, c.pcs[1]) && !has_pc(c, b.pcs[1]) && semitone_apart(c.pcs[1], b.pcs[1]));
        }
        if b == pcs_chord([0u8, 1u8, 6u8, 8u8]) {
            assert(!has_pc(b, c.pcs[1]) && !has_pc(c, b.pcs[1]) && semitone_apart(c.pcs[1], b.pcs[1]));
        }
        if b == pcs_chord([0u8, 2u8, 7u8, 8u8]) {
            assert(!has_pc(b, c.pcs[2]) && !has_pc(c, b.pcs[2]) && semitone_apart(c.pcs[2], b.pcs[2]));
        }
        if b == pcs_chord([0u8, 2u8, 5u8, 8u8]) {
            assert(!has_pc(b, c.pcs[2]) && !has_pc(c, b.pcs[2]) && semitone_apart(c.pcs[2], b.pcs[2]));
        }
        if b == pcs_chord([0u8, 2u8, 6u8, 9u8]) {
            assert(!has_pc(b, c.pcs[3]) && !has_pc(c, b.pcs[3]) && semitone_apart(c.pcs[3], b.pcs[3]));
        }
        if b == pcs_chord([0u8, 2u8, 6u8, 7u8]) {
            assert(!has_pc(b, c.pcs[3]) && !has_pc(c, b.pcs[3]) && semitone_apart(c.pcs[3], b.pcs[3]));
        }
    }
    assert(base_neighbours(c) =~= nb);
}

/// The base chords adjacent to the representative chord of Q878.
proof fn lemma_neighbours_q878()
    ensures
        rep_chord(Orbit::Q878) == pcs_chord([0u8, 3u8, 8u8, 11u8]),
        base_neighbours(pcs_chord([0u8, 3u8, 8u8, 11u8])) == (set![
            pcs_chord([1u8, 3u8, 8u8, 11u8]),
            pcs_chord([0u8, 4u8, 8u8, 11u8]),
            pcs_chord([0u8, 3u8, 7u8, 11u8]),
            pcs_chord([0u8, 3u8, 8u8, 10u8]),
        ]),
        chord_in_base(pcs_chord([0u8, 3u8, 8u8, 11u8])),
{
    lemma_rep_literal([0u8, 8u8, 3u8, 11u8], [0u8, 3u8, 8u8, 11u8]);
    let c = pcs_chord([0u8, 3u8, 8u8, 11u8]);
    lemma_legal_at([0u8, 3u8, 8u8, 11u8], 2, 0);
    lemma_legal_at([1u8, 3u8, 8u8, 11u8], 2, 0);
    lemma_legal_at([0u8, 4u8, 8u8, 11u8], 2, 0);
    lemma_legal_at([0u8, 3u8, 7u8, 11u8], 2, 0);
    lemma_legal_at([0u8, 3u8, 8u8, 10u8], 2, 0);
    lemma_no_legal_ordering([0u8, 2u8, 8u8, 11u8]);
    lemma_no_legal_ordering([0u8, 3u8, 9u8, 11u8]);
    let nb = set![
        pcs_chord([1u8, 3u8, 8u8, 11u8]),
        pcs_chord([0u8, 4u8, 8u8, 11u8]),
        pcs_chord([0u8, 3u8, 7u8, 11u8]),
        pcs_chord([0u8, 3u8, 8u8, 10u8]),
    ];
    assert forall|b: PcChord| base_neighbours(c).contains(b) <==> nb.contains(b) by {
        if base_neighbours(c).contains(b) {
            lemma_adjacent_members(c, b);
            if b.pcs[0] == 1 && b.pcs[1] == 3 && b.pcs[2] == 8 && b.pcs[3] == 11 {
                assert(b.pcs =~= [1u8, 3u8, 8u8, 11u8]);
            }
            if b.pcs[0] == 0 && b.pcs[1] == 4 && b.pcs[2] == 8 && b.pcs[3] == 11 {
                assert(b.pcs =~= [0u8, 4u8, 8u8, 11u8]);
            }
            if b.pcs[0] == 0 && b.pcs[1] == 3 && b.pcs[2] == 7 && b.pcs[3] == 11 {
                assert(b.pcs =~= [0u8, 3u8, 7u8, 11u8]);
            }
            if b.pcs[0] == 0 && b.pcs[1] == 3 && b.pcs[2] == 8 && b.pcs[3] == 10 {
                assert(b.pcs =~= [0u8, 3u8, 8u8, 10u8]);
            }
            if b.pcs[0] == 0 && b.pcs[1] == 2 && b.pcs[2] == 8 && b.pcs[3] == 11 {
                assert(b.pcs =~= [0u8, 2u8, 8u8, 11u8]);
            }
            if b.pcs[0] == 0 && b.pcs[1] == 3 && b.pcs[2] == 9 && b.pcs[3] == 11 {
                assert(b.pcs =~= [0u8, 3u8, 9u8, 11u8]);
            }
        }
        if b == pcs_chord([1u8, 3u8, 8u8, 11u8]) {
            assert(!has_pc(b, c.pcs[0]) && !has_pc(c, b.pcs[0]) && semitone_apart(c.pcs[0], b.pcs[0]));
        }
        if b == pcs_chord([0u8, 4u8, 8u8, 11u8]) {
            assert(!has_pc(b, c.pcs[1]) && !has_pc(c, b.pcs[1]) && semitone_apart(c.pcs[1], b.pcs[1]));
        }
        if b == pcs_chord([0u8, 3u8, 7u8, 11u8]) {
            assert(!has_pc(b, c.pcs[2]) && !has_pc(c, b.pcs[2]) && semitone_apart(c.pcs[2], b.pcs[2]));
        }
        if b == pcs_chord([0u8, 3u8, 8u8, 10u8]) {
            assert(!has_pc(b, c.pcs[3]) && !has_pc(c, b.pcs[3]) && semitone_apart(c.pcs[3], b.pcs[3]));
        }
    }
    assert(base_neighbours(c) =~= nb);
}

/// The base chords adjacent to the representative chord of Q868.
proof fn lemma_neighbours_q868()
    ensures
        rep_chord(Orbit::Q868) == pcs_chord([0u8, 2u8, 8u8, 10u8]),
        base_neighbours(pcs_chord([0u8, 2u8, 8u8, 10u8])) == (set![
            pcs_chord([1u8, 2u8, 8u8, 10u8]),
            pcs_chord([0u8, 3u8, 8u8, 10u8]),
            pcs_chord([0u8, 2u8, 7u8, 10u8]),
            pcs_chord([0u8, 2u8, 8u8, 9u8]),
        ]),
        chord_in_base(pcs_chord([0u8, 2u8, 8u8, 10u8])),
{
    lemma_rep_literal([0u8, 8u8, 2u8, 10u8], [0u8, 2u8, 8u8, 10u8]);
    let c = pcs_chord([0u8, 2u8, 8u8, 10u8]);
    lemma_legal_at([0u8, 2u8, 8u8, 10u8], 2, 0);
    lemma_legal_at([1u8, 2u8, 8u8, 10u8], 2, 0);
    lemma_legal_at([0u8, 3u8, 8u8, 10u8], 2, 0);
    lemma_legal_at([0u8, 2u8, 7u8, 10u8], 2, 0);
    lemma_legal_at([0u8, 2u8, 8u8, 9u8], 2, 0);
    lemma_no_legal_ordering([2u8, 8u8, 10u8, 11u8]);
    lemma_no_legal_ordering([0u8, 1u8, 8u8, 10u8]);
    lemma_no_legal_ordering([0u8, 2u8, 9u8, 10u8]);
    lemma_no_legal_ordering([0u8, 2u8, 8u8, 11u8]);
    let nb = set![
        pcs_chord([1u8, 2u8, 8u8, 10u8]),
        pcs_chord([0u8, 3u8, 8u8, 10u8]),
        pcs_chord([0u8, 2u8, 7u8, 10u8]),
        pcs_chord([0u8, 2u8, 8u8, 9u8]),
    ];
    assert forall|b: PcChord| base_neighbours(c).contains(b) <==> nb.contains(b) by {
        if base_neighbours(c).contains(b) {
            lemma_adjacent_members(c, b);
            if b.pcs[0] == 1 && b.pcs[1] == 2 && b.pcs[2] == 8 && b.pcs[3] == 10 {
                assert(b.pcs =~= [1u8, 2u8, 8u8, 10u8]);
            }
            if b.pcs[0] == 0 && b.pcs[1] == 3 && b.pcs[2] == 8 && b.pcs[3] == 10 {
                assert(b.pcs =~= [0u8, 3u8, 8u8, 10u8]);
            }
            if b.pcs[0] == 0 && b.pcs[1] == 2 && b.pcs[2] == 7 && b.pcs[3] == 10 {
                assert(b.pcs =~= [0u8, 2u8, 7u8, 10u8]);
            }
            if b.pcs[0] == 0 && b.pcs[1] == 2 && b.pcs[2] == 8 && b.pcs[3] == 9 {
                assert(b.pcs =~= [0u8, 2u8, 8u8, 9u8]);
            }
            if b.pcs[0] == 2 && b.pcs[1] == 8 && b.pcs[2] == 10 && b.pcs[3] == 11 {
                assert(b.pcs =~= [2u8, 8u8, 10u8, 11u8]);
            }
            if b.pcs[0] == 0 && b.pcs[1] == 1 && b.pcs[2] == 8 && b.pcs[3] == 10 {
                assert(b.pcs =~= [0u8, 1u8, 8u8, 10u8]);
            }
            if b.pcs[0] == 0 && b.pcs[1] == 2 && b.pcs[2] == 9 && b.pcs[3] == 10 {
                assert(b.pcs =~= [0u8, 2u8, 9u8, 10u8]);
            }
            if b.pcs[0] == 0 && b.pcs[1] == 2 && b.pcs[2] == 8 && b.pcs[3] == 11 {
                assert(b.pcs =~= [0u8, 2u8, 8u8, 11u8]);
            }
        }
        if b == pcs_chord([1u8, 2u8, 8u8, 10u8]) {
            assert(!has_pc(b, c.pcs[0]) && !has_pc(c, b.pcs[0]) && semitone_apart(c.pcs[0], b.pcs[0]));
        }
        if b == pcs_chord([0u8, 3u8, 8u8, 10u8]) {
            assert(!has_pc(b, c.pcs[1]) && !has_pc(c, b.pcs[1]) && semitone_apart(c.pcs[1], b.pcs[1]));
        }
        if b == pcs_chord([0u8, 2u8, 7u8, 10u8]) {
            assert(!has_pc(b, c.pcs[2]) && !has_pc(c, b.pcs[2]) && semitone_apart(c.pcs[2], b.pcs[2]));
        }
        if b == pcs_chord([0u8, 2u8, 8u8, 9u8]) {
            assert(!has_pc(b, c.pcs[3]) && !has_pc(c, b.pcs[3]) && semitone_apart(c.pcs[3], b.pcs[3]));
        }
    }
    assert(base_neighbours(c) =~= nb);
}

/// The base chords adjacent to the representative chord of Q776.
proof fn lemma_neighbours_q776()
    ensures
        rep_chord(Orbit::Q776) == pcs_chord([0u8, 2u8, 7u8, 8u8]),
        base_neighbours(pcs_chord([0u8, 2u8, 7u8, 8u8])) == (set![
            pcs_chord([1u8, 2u8, 7u8, 8u8]),
            pcs_chord([2u8, 7u8, 8u8, 11u8]),
            pcs_chord([0u8, 1u8, 7u8, 8u8]),
            pcs_chord([0u8, 2u8, 6u8, 8u8]),
            pcs_chord([0u8, 2u8, 7u8, 9u8]),
        ]),
        chord_in_base(pcs_chord([0u8, 2u8, 7u8, 8u8])),
{
    lemma_rep_literal([0u8, 7u8, 2u8, 8u8], [0u8, 2u8, 7u8, 8u8]);
    let c = pcs_chord([0u8, 2u8, 7u8, 8u8]);
    lemma_legal_at([0u8, 2u8, 7u8, 8u8], 2, 0);
    lemma_legal_at([1u8, 2u8, 7u8, 8u8], 2, 0);
    lemma_legal_at([2u8, 7u8, 8u8, 11u8], 20, 0);
    lemma_legal_at([0u8, 1u8, 7u8, 8u8], 2, 0);
    lemma_legal_at([0u8, 2u8, 6u8, 8u8], 2, 0);
    lemma_legal_at([0u8, 2u8, 7u8, 9u8], 2, 0);
    lemma_no_legal_ordering([0u8, 3u8, 7u8, 8u8]);
    let nb = set![
        pcs_chord([1u8, 2u8, 7u8, 8u8]),
        pcs_chord([2u8, 7u8, 8u8, 11u8]),
        pcs_chord([0u8, 1u8, 7u8, 8u8]),
        pcs_chord([0u8, 2u8, 6u8, 8u8]),
        pcs_chord([0u8, 2u8, 7u8, 9u8]),
    ];
    assert forall|b: PcChord| base_neighbours(c).contains(b) <==> nb.contains(b) by {
        if base_neighbours(c).contains(b) {
            lemma_adjacent_members(c, b);
            if b.pcs[0] == 1 && b.pcs[1] == 2 && b.pcs[2] == 7 && b.pcs[3] == 8 {
                assert(b.pcs =~= [1u8, 2u8, 7u8, 8u8]);
            }
            if b.pcs[0] == 2 && b.pcs[1] == 7 && b.pcs[2] == 8 && b.pcs[3] == 11 {
                assert(b.pcs =~= [2u8, 7u8, 8u8, 11u8]);
            }
            if b.pcs[0] == 0 && b.pcs[1] == 1 && b.pcs[2] == 7 && b.pcs[3] == 8 {
                assert(b.pcs =~= [0u8, 1u8, 7u8, 8u8]);
            }
            if b.pcs[0] == 0 && b.pcs[1] == 2 && b.pcs[2] == 6 && b.pcs[3] == 8 {
                assert(b.pcs =~= [0u8, 2u8, 6u8, 8u8]);
            }
            if b.pcs[0] == 0 && b.pcs[1] == 2 && b.pcs[2] == 7 && b.pcs[3] == 9 {
                assert(b.pcs =~= [0u8, 2u8, 7u8, 9u8]);
            }
            if b.pcs[0] == 0 && b.pcs[1] == 3 && b.pcs[2] == 7 && b.pcs[3] == 8 {
                assert(b.pcs =~= [0u8, 3u8, 7u8, 8u8]);
            }
        }
        if b == pcs_chord([1u8, 2u8, 7u8, 8u8]) {
            assert(!has_pc(b, c.pcs[0]) && !has_pc(c, b.pcs[0]) && semitone_apart(c.pcs[0], b.pcs[0]));
        }
        if b == pcs_chord([2u8, 7u8, 8u8, 11u8]) {
            assert(!has_pc(b, c.pcs[0]) && !has_pc(c, b.pcs[3]) && semitone_apart(c.pcs[0], b.pcs[3]));
        }
        if b == pcs_chord([0u8, 1u8, 7u8, 8u8]) {
            assert(!has_pc(b, c.pcs[1]) && !has_pc(c, b.pcs[1]) && semitone_apart(c.pcs[1], b.pcs[1]));
        }
        if b == pcs_chord([0u8, 2u8, 6u8, 8u8]) {
            assert(!has_pc(b, c.pcs[2]) && !has_pc(c, b.pcs[2]) && semitone_apart(c.pcs[2], b.pcs[2]));
        }
        if b == pcs_chord([0u8, 2u8, 7u8, 9u8]) {
            assert(!has_pc(b, c.pcs[3]) && !has_pc(c, b.pcs[3]) && semitone_apart(c.pcs[3], b.pcs[3]));
        }
    }
    assert(base_neighbours(c) =~= nb);
}

/// The base chords adjacent to the representative chord of Q877.
proof fn lemma_neighbours_q877()
    ensures
        rep_chord(Orbit::Q877) == pcs_chord([0u8, 3u8, 8u8, 10u8]),
        base_neighbours(pcs_chord([0u8, 3u8, 8u8, 10u8])) == (set![
            pcs_chord([1u8, 3u8, 8u8, 10u8]),
            pcs_chord([0u8, 4u8, 8u8, 10u8]),
            pcs_chord([0u8, 2u8, 8u8, 10u8]),
            pcs_chord([0u8, 3u8, 7u8, 10u8]),
            pcs_chord([0u8, 3u8, 8u8, 11u8]),
            pcs_chord([0u8, 3u8, 8u8, 9u8]),
        ]),
        chord_in_base(pcs_chord([0u8, 3u8, 8u8, 10u8])),
{
    lemma_rep_literal([0u8, 8u8, 3u8, 10u8], [0u8, 3u8, 8u8, 10u8]);
    let c = pcs_chord([0u8, 3u8, 8u8, 10u8]);
    lemma_legal_at([0u8, 3u8, 8u8, 10u8], 2, 0);
    lemma_legal_at([1u8, 3u8, 8u8, 10u8], 2, 0);
    lemma_legal_at([0u8, 4u8, 8u8, 10u8], 2, 0);
    lemma_legal_at([0u8, 2u8, 8u8, 10u8], 2, 0);
    lemma_legal_at([0u8, 3u8, 7u8, 10u8], 2, 0);
    lemma_legal_at([0u8, 3u8, 8u8, 11u8], 2, 0);
    lemma_legal_at([0u8, 3u8, 8u8, 9u8], 2, 0);
    lemma_no_legal_ordering([3u8, 8u8, 10u8, 11u8]);
    lemma_no_legal_ordering([0u8, 3u8, 9u8, 10u8]);
    let nb = set![
        pcs_chord([1u8, 3u8, 8u8, 10u8]),
        pcs_chord([0u8, 4u8, 8u8, 10u8]),
        pcs_chord([0u8, 2u8, 8u8, 10u8]),
        pcs_chord([0u8, 3u8, 7u8, 10u8]),
        pcs_chord([0u8, 3u8, 8u8, 11u8]),
        pcs_chord([0u8, 3u8, 8u8, 9u8]),
    ];
    assert forall|b: PcChord| base_neighbours(c).contains(b) <==> nb.contains(b) by {
        if base_neighbours(c).contains(b) {
            lemma_adjacent_members(c, b);
            if b.pcs[0] == 1 && b.pcs[1] == 3 && b.pcs[2] == 8 && b.pcs[3] == 10 {
                assert(b.pcs =~= [1u8, 3u8, 8u8, 10u8]);
            }
            if b.pcs[0] == 0 && b.pcs[1] == 4 && b.pcs[2] == 8 && b.pcs[3] == 10 {
                assert(b.pcs =~= [0u8, 4u8, 8u8, 10u8]);
            }
            if b.pcs[0] == 0 && b.pcs[1] == 2 && b.pcs[2] == 8 && b.pcs[3] == 10 {
                assert(b.pcs =~= [0u8, 2u8, 8u8, 10u8]);
            }
            if b.pcs[0] == 0 && b.pcs[1] == 3 && b.pcs[2] == 7 && b.pcs[3] == 10 {
                assert(b.pcs =~= [0u8, 3u8, 7u8, 10u8]);
            }
            if b.pcs[0] == 0 && b.pcs[1] == 3 && b.pcs[2] == 8 && b.pcs[3] == 11 {
                assert(b.pcs =~= [0u8, 3u8, 8u8, 11u8]);
            }
            if b.pcs[0] == 0 && b.pcs[1] == 3 && b.pcs[2] == 8 && b.pcs[3] == 9 {
                assert(b.pcs =~= [0u8, 3u8, 8u8, 9u8]);
            }
            if b.pcs[0] == 3 && b.pcs[1] == 8 && b.pcs[2] == 10 && b.pcs[3] == 11 {
                assert(b.pcs =~= [3u8, 8u8, 10u8, 11u8]);
            }
            if b.pcs[0] == 0 && b.pcs[1] == 3 && b.pcs[2] == 9 && b.pcs[3] == 10 {
                assert(b.pcs =~= [0u8, 3u8, 9u8, 10u8]);
            }
        }
        if b == pcs_chord([1u8, 3u8, 8u8, 10u8]) {
            assert(!has_pc(b, c.pcs[0]) && !has_pc(c, b.pcs[0]) && semitone_apart(c.pcs[0], b.pcs[0]));
        }
        if b == pcs_chord([0u8, 4u8, 8u8, 10u8]) {
            assert(!has_pc(b, c.pcs[1]) && !has_pc(c, b.pcs[1]) && semitone_apart(c.pcs[1], b.pcs[1]));
        }
        if b == pcs_chord([0u8, 2u8, 8u8, 10u8]) {
            assert(!has_pc(b, c.pcs[1]) && !has_pc(c, b.pcs[1]) && semitone_apart(c.pcs[1], b.pcs[1]));
        }
        if b == pcs_chord([0u8, 3u8, 7u8, 10u8]) {
            assert(!has_pc(b, c.pcs[2]) && !has_pc(c, b.pcs[2]) && semitone_apart(c.pcs[2], b.pcs[2]));
        }
        if b == pcs_chord([0u8, 3u8, 8u8, 11u8]) {
            assert(!has_pc(b, c.pcs[3]) && !has_pc(c, b.pcs[3]) && semitone_apart(c.pcs[3], b.pcs[3]));
        }
        if b == pcs_chord([0u8, 3u8, 8u8, 9u8]) {
            assert(!has_pc(b, c.pcs[3]) && !has_pc(c, b.pcs[3]) && semitone_apart(c.pcs[3], b.pcs[3]));
        }
    }
    assert(base_neighbours(c) =~= nb);
}

/// The base chords adjacent to the representative chord of Q867.
proof fn lemma_neighbours_q867()
    ensures
        rep_chord(Orbit::Q867) == pcs_chord([0u8, 2u8, 8u8, 9u8]),
        base_neighbours(pcs_chord([0u8, 2u8, 8u8, 9u8])) == (set![
            pcs_chord([1u8, 2u8, 8u8, 9u8]),
            pcs_chord([0u8, 3u8, 8u8, 9u8]),
            pcs_chord([0u8, 2u8, 7u8, 9u8]),
            pcs_chord([0u8, 2u8, 8u8, 10u8]),
        ]),
        chord_in_base(pcs_chord([0u8, 2u8, 8u8, 9u8])),
{
    lemma_rep_literal([0u8, 8u8, 2u8, 9u8], [0u8, 2u8, 8u8, 9u8]);
    let c = pcs_chord([0u8, 2u8, 8u8, 9u8]);
    lemma_legal_at([0u8, 2u8, 8u8, 9u8], 2, 0);
    lemma_legal_at([1u8, 2u8, 8u8, 9u8], 2, 0);
    lemma_legal_at([0u8, 3u8, 8u8, 9u8], 2, 0);
    lemma_legal_at([0u8, 2u8, 7u8, 9u8], 2, 0);
    lemma_legal_at([0u8, 2u8, 8u8, 10u8], 2, 0);
    lemma_no_legal_ordering([2u8, 8u8, 9u8, 11u8]);
    lemma_no_legal_ordering([0u8, 1u8, 8u8, 9u8]);
    let nb = set![
        pcs_chord([1u8, 2u8, 8u8, 9u8]),
        pcs_chord([0u8, 3u8, 8u8, 9u8]),
        pcs_chord([0u8, 2u8, 7u8, 9u8]),
        pcs_chord([0u8, 2u8, 8u8, 10u8]),
    ];
    assert forall|b: PcChord| base_neighbours(c).contains(b) <==> nb.contains(b) by {
        if base_neighbours(c).contains(b) {
            lemma_adjacent_members(c, b);
            if b.pcs[0] == 1 && b.pcs[1] == 2 && b.pcs[2] == 8 && b.pcs[3] == 9 {
                assert(b.pcs =~= [1u8, 2u8, 8u8, 9u8]);
            }
            if b.pcs[0] == 0 && b.pcs[1] == 3 && b.pcs[2] == 8 && b.pcs[3] == 9 {
                assert(b.pcs =~= [0u8, 3u8, 8u8, 9u8]);
            }
            if b.pcs[0] == 0 && b.pcs[1] == 2 && b.pcs[2] == 7 && b.pcs[3] == 9 {
                assert(b.pcs =~= [0u8, 2u8, 7u8, 9u8]);
            }
            if b.pcs[0] == 0 && b.pcs[1] == 2 && b.pcs[2] == 8 && b.pcs[3] == 10 {
                assert(b.pcs =~= [0u8, 2u8, 8u8, 10u8]);
            }
            if b.pcs[0] == 2 && b.pcs[1] == 8 && b.pcs[2] == 9 && b.pcs[3] == 11 {
                assert(b.pcs =~= [2u8, 8u8, 9u8, 11u8]);
            }
            if b.pcs[0] == 0 && b.pcs[1] == 1 && b.pcs[2] == 8 && b.pcs[3] == 9 {
                assert(b.pcs =~= [0u8, 1u8, 8u8, 9u8]);
            }
        }
        if b == pcs_chord([1u8, 2u8, 8u8, 9u8]) {
            assert(!has_pc(b, c.pcs[0]) && !has_pc(c, b.pcs[0]) && semitone_apart(c.pcs[0], b.pcs[0]));
        }
        if b == pcs_chord([0u8, 3u8, 8u8, 9u8]) {
            assert(!has_pc(b, c.pcs[1]) && !has_pc(c, b.pcs[1]) && semitone_apart(c.pcs[1], b.pcs[1]));
        }
        if b == pcs_chord([0u8, 2u8, 7u8, 9u8]) {
            assert(!has_pc(b, c.pcs[2]) && !has_pc(c, b.pcs[2]) && semitone_apart(c.pcs[2], b.pcs[2]));
        }
        if b == pcs_chord([0u8, 2u8, 8u8, 10u8]) {
            assert(!has_pc(b, c.pcs[3]) && !has_pc(c, b.pcs[3]) && semitone_apart(c.pcs[3], b.pcs[3]));
        }
    }
    assert(base_neighbours(c) =~= nb);
}

/// The base chords adjacent to the representative chord of Q876.
proof fn lemma_neighbours_q876()
    ensures
        rep_chord(Orbit::Q876) == pcs_chord([0u8, 3u8, 8u8, 9u8]),
        base_neighbours(pcs_chord([0u8, 3u8, 8u8, 9u8])) == (set![
            pcs_chord([1u8, 3u8, 8u8, 9u8]),
            pcs_chord([0u8, 4u8, 8u8, 9u8]),
            pcs_chord([0u8, 2u8, 8u8, 9u8]),
            pcs_chord([0u8, 3u8, 7u8, 9u8]),
            pcs_chord([0u8, 3u8, 8u8, 10u8]),
        ]),
        chord_in_base(pcs_chord([0u8, 3u8, 8u8, 9u8])),
{
    lemma_rep_literal([0u8, 8u8, 3u8, 9u8], [0u8, 3u8, 8u8, 9u8]);
    let c = pcs_chord([0u8, 3u8, 8u8, 9u8]);
    lemma_legal_at([0u8, 3u8, 8u8, 9u8], 2, 0);
    lemma_legal_at([1u8, 3u8, 8u8, 9u8], 2, 0);
    lemma_legal_at([0u8, 4u8, 8u8, 9u8], 20, 0);
    lemma_legal_at([0u8, 2u8, 8u8, 9u8], 2, 0);
    lemma_legal_at([0u8, 3u8, 7u8, 9u8], 2, 0);
    lemma_legal_at([0u8, 3u8, 8u8, 10u8], 2, 0);
    lemma_no_legal_ordering([3u8, 8u8, 9u8, 11u8]);
    let nb = set![
        pcs_chord([1u8, 3u8, 8u8, 9u8]),
        pcs_chord([0u8, 4u8, 8u8, 9u8]),
        pcs_chord([0u8, 2u8, 8u8, 9u8]),
        pcs_chord([0u8, 3u8, 7u8, 9u8]),
        pcs_chord([0u8, 3u8, 8u8, 10u8]),
    ];
    assert forall|b: PcChord| base_neighbours(c).contains(b) <==> nb.contains(b) by {
        if base_neighbours(c).contains(b) {
            lemma_adjacent_members(c, b);
            if b.pcs[0] == 1 && b.pcs[1] == 3 && b.pcs[2] == 8 && b.pcs[3] == 9 {
                assert(b.pcs =~= [1u8, 3u8, 8u8, 9u8]);
            }
            if b.pcs[0] == 0 && b.pcs[1] == 4 && b.pcs[2] == 8 && b.pcs[3] == 9 {
                assert(b.pcs =~= [0u8, 4u8, 8u8, 9u8]);
            }
            if b.pcs[0] == 0 && b.pcs[1] == 2 && b.pcs[2] == 8 && b.pcs[3] == 9 {
                assert(b.pcs =~= [0u8, 2u8, 8u8, 9u8]);
            }
            if b.pcs[0] == 0 && b.pcs[1] == 3 && b.pcs[2] == 7 && b.pcs[3] == 9 {
                assert(b.pcs =~= [0u8, 3u8, 7u8, 9u8]);
            }
            if b.pcs[0] == 0 && b.pcs[1] == 3 && b.pcs[2] == 8 && b.pcs[3] == 10 {
                assert(b.pcs =~= [0u8, 3u8, 8u8, 10u8]);
            }
            if b.pcs[0] == 3 && b.pcs[1] == 8 && b.pcs[2] == 9 && b.pcs[3] == 11 {
                assert(b.pcs =~= [3u8, 8u8, 9u8, 11u8]);
            }
        }
        if b == pcs_chord([1u8, 3u8, 8u8, 9u8]) {
            assert(!has_pc(b, c.pcs[0]) && !has_pc(c, b.pcs[0]) && semitone_apart(c.pcs[0], b.pcs[0]));
        }
        if b == pcs_chord([0u8, 4u8, 8u8, 9u8]) {
            assert(!has_pc(b, c.pcs[1]) && !has_pc(c, b.pcs[1]) && semitone_apart(c.pcs[1], b.pcs[1]));
        }
        if b == pcs_chord([0u8, 2u8, 8u8, 9u8]) {
            assert(!has_pc(b, c.pcs[1]) && !has_pc(c, b.pcs[1]) && semitone_apart(c.pcs[1], b.pcs[1]));
        }
        if b == pcs_chord([0u8, 3u8, 7u8, 9u8]) {
            assert(!has_pc(b, c.pcs[2]) && !has_pc(c, b.pcs[2]) && semitone_apart(c.pcs[2], b.pcs[2]));
        }
        if b == pcs_chord([0u8, 3u8, 8u8, 10u8]) {
            assert(!has_pc(b, c.pcs[3]) && !has_pc(c, b.pcs[3]) && semitone_apart(c.pcs[3], b.pcs[3]));
        }
    }
    assert(base_neighbours(c) =~= nb);
}

/// The base chords adjacent to the representative chord of Q788.
proof fn lemma_neighbours_q788()
    ensures
        rep_chord(Orbit::Q788) == pcs_chord([0u8, 3u8, 7u8, 11u8]),
        base_neighbours(pcs_chord([0u8, 3u8, 7u8, 11u8])) == (set![
            pcs_chord([1u8, 3u8, 7u8, 11u8]),
            pcs_chord([0u8, 3u8, 8u8, 11u8]),
            pcs_chord([0u8, 3u8, 6u8, 11u8]),
            pcs_chord([0u8, 3u8, 7u8, 10u8]),
        ]),
        chord_in_base(pcs_chord([0u8, 3u8, 7u8, 11u8])),
{
    lemma_rep_literal([0u8, 7u8, 3u8, 11u8], [0u8, 3u8, 7u8, 11u8]);
    let c = pcs_chord([0u8, 3u8, 7u8, 11u8]);
    lemma_legal_at([0u8, 3u8, 7u8, 11u8], 2, 0);
    lemma_legal_at([1u8, 3u8, 7u8, 11u8], 2, 0);
    lemma_legal_at([0u8, 3u8, 8u8, 11u8], 2, 0);
    lemma_legal_at([0u8, 3u8, 6u8, 11u8], 11, 0);
    lemma_legal_at([0u8, 3u8, 7u8, 10u8], 2, 0);
    lemma_no_legal_ordering([0u8, 4u8, 7u8, 11u8]);
    lemma_no_legal_ordering([0u8, 2u8, 7u8, 11u8]);
    let nb = set![
        pcs_chord([1u8, 3u8, 7u8, 11u8]),
        pcs_chord([0u8, 3u8, 8u8, 11u8]),
        pcs_chord([0u8, 3u8, 6u8, 11u8]),
        pcs_chord([0u8, 3u8, 7u8, 10u8]),
    ];
    assert forall|b: PcChord| base_neighbours(c).contains(b) <==> nb.contains(b) by {
        if base_neighbours(c).contains(b) {
            lemma_adjacent_members(c, b);
            if b.pcs[0] == 1 && b.pcs[1] == 3 && b.pcs[2] == 7 && b.pcs[3] == 11 {
                assert(b.pcs =~= [1u8, 3u8, 7u8, 11u8]);
            }
            if b.pcs[0] == 0 && b.pcs[1] == 3 && b.pcs[2] == 8 && b.pcs[3] == 11 {
                assert(b.pcs =~= [0u8, 3u8, 8u8, 11u8]);
            }
            if b.pcs[0] == 0 && b.pcs[1] == 3 && b.pcs[2] == 6 && b.pcs[3] == 11 {
                assert(b.pcs =~= [0u8, 3u8, 6u8, 11u8]);
            }
            if b.pcs[0] == 0 && b.pcs[1] == 3 && b.pcs[2] == 7 && b.pcs[3] == 10 {
                assert(b.pcs =~= [0u8, 3u8, 7u8, 10u8]);
            }
            if b.pcs[0] == 0 && b.pcs[1] == 4 && b.pcs[2] == 7 && b.pcs[3] == 11 {
                assert(b.pcs =~= [0u8, 4u8, 7u8, 11u8]);
            }
            if b.pcs[0] == 0 && b.pcs[1] == 2 && b.pcs[2] == 7 && b.pcs[3] == 11 {
                assert(b.pcs =~= [0u8, 2u8, 7u8, 11u8]);
            }
        }
        if b == pcs_chord([1u8, 3u8, 7u8, 11u8]) {
            assert(!has_pc(b, c.pcs[0]) && !has_pc(c, b.pcs[0]) && semitone_apart(c.pcs[0], b.pcs[0]));
        }
        if b == pcs_chord([0u8, 3u8, 8u8, 11u8]) {
            assert(!has_pc(b, c.pcs[2]) && !has_pc(c, b.pcs[2]) && semitone_apart(c.pcs[2], b.pcs[2]));
        }
        if b == pcs_chord([0u8, 3u8, 6u8, 11u8]) {
            assert(!has_pc(b, c.pcs[2]) && !has_pc(c, b.pcs[2]) && semitone_apart(c.pcs[2], b.pcs[2]));
        }
        if b == pcs_chord([0u8, 3u8, 7u8, 10u8]) {
            assert(!has_pc(b, c.pcs[3]) && !has_pc(c, b.pcs[3]) && semitone_apart(c.pcs[3], b.pcs[3]));
        }
    }
    assert(base_neighbours(c) =~= nb);
}

/// The base chords adjacent to the representative chord of Q786.
proof fn lemma_neighbours_q786()
    ensures
        rep_chord(Orbit::Q786) == pcs_chord([0u8, 3u8, 7u8, 9u8]),
        base_neighbours(pcs_chord([0u8, 3u8, 7u8, 9u8])) == (set![
            pcs_chord([1u8, 3u8, 7u8, 9u8]),
            pcs_chord([3u8, 7u8, 9u8, 11u8]),
            pcs_chord([0u8, 4u8, 7u8, 9u8]),
            pcs_chord([0u8, 2u8, 7u8, 9u8]),
            pcs_chord([0u8, 3u8, 8u8, 9u8]),
            pcs_chord([0u8, 3u8, 7u8, 10u8]),
        ]),
        chord_in_base(pcs_chord([0u8, 3u8, 7u8, 9u8])),
{
    lemma_rep_literal([0u8, 7u8, 3u8, 9u8], [0u8, 3u8, 7u8, 9u8]);
    let c = pcs_chord([0u8, 3u8, 7u8, 9u8]);
    lemma_legal_at([0u8, 3u8, 7u8, 9u8], 2, 0);
    lemma_legal_at([1u8, 3u8, 7u8, 9u8], 2, 0);
    lemma_legal_at([3u8, 7u8, 9u8, 11u8], 13, 0);
    lemma_legal_at([0u8, 4u8, 7u8, 9u8], 20, 0);
    lemma_legal_at([0u8, 2u8, 7u8, 9u8], 2, 0);
    lemma_legal_at([0u8, 3u8, 8u8, 9u8], 2, 0);
    lemma_legal_at([0u8, 3u8, 7u8, 10u8], 2, 0);
    lemma_no_legal_ordering([0u8, 3u8, 6u8, 9u8]);
    lemma_no_legal_ordering([0u8, 3u8, 7u8, 8u8]);
    let nb = set![
        pcs_chord([1u8, 3u8, 7u8, 9u8]),
        pcs_chord([3u8, 7u8, 9u8, 11u8]),
        pcs_chord([0u8, 4u8, 7u8, 9u8]),
        pcs_chord([0u8, 2u8, 7u8, 9u8]),
        pcs_chord([0u8, 3u8, 8u8, 9u8]),
        pcs_chord([0u8, 3u8, 7u8, 10u8]),
    ];
    assert forall|b: PcChord| base_neighbours(c).contains(b) <==> nb.contains(b) by {
        if base_neighbours(c).contains(b) {
            lemma_adjacent_members(c, b);
            if b.pcs[0] == 1 && b.pcs[1] == 3 && b.pcs[2] == 7 && b.pcs[3] == 9 {
                assert(b.pcs =~= [1u8, 3u8, 7u8, 9u8]);
            }
            if b.pcs[0] == 3 && b.pcs[1] == 7 && b.pcs[2] == 9 && b.pcs[3] == 11 {
                assert(b.pcs =~= [3u8, 7u8, 9u8, 11u8]);
            }
            if b.pcs[0] == 0 && b.pcs[1] == 4 && b.pcs[2] == 7 && b.pcs[3] == 9 {
                assert(b.pcs =~= [0u8, 4u8, 7u8, 9u8]);
            }
            if b.pcs[0] == 0 && b.pcs[1] == 2 && b.pcs[2] == 7 && b.pcs[3] == 9 {
                assert(b.pcs =~= [0u8, 2u8, 7u8, 9u8]);
            }
            if b.pcs[0] == 0 && b.pcs[1] == 3 && b.pcs[2] == 8 && b.pcs[3] == 9 {
                assert(b.pcs =~= [0u8, 3u8, 8u8, 9u8]);
            }
            if b.pcs[0] == 0 && b.pcs[1] == 3 && b.pcs[2] == 7 && b.pcs[3] == 10 {
                assert(b.pcs =~= [0u8, 3u8, 7u8, 10u8]);
            }
            if b.pcs[0] == 0 && b.pcs[1] == 3 && b.pcs[2] == 6 && b.pcs[3] == 9 {
                assert(b.pcs =~= [0u8, 3u8, 6u8, 9u8]);
            }
            if b.pcs[0] == 0 && b.pcs[1] == 3 && b.pcs[2] == 7 && b.pcs[3] == 8 {
                assert(b.pcs =~= [0u8, 3u8, 7u8, 8u8]);
            }
        }
        if b == pcs_chord([1u8, 3u8, 7u8, 9u8]) {
            assert(!has_pc(b, c.pcs[0]) && !has_pc(c, b.pcs[0]) && semitone_apart(c.pcs[0], b.pcs[0]));
        }
        if b == pcs_chord([3u8, 7u8, 9u8, 11u8]) {
            assert(!has_pc(b, c.pcs[0]) && !has_pc(c, b.pcs[3]) && semitone_apart(c.pcs[0], b.pcs[3]));
        }
        if b == pcs_chord([0u8, 4u8, 7u8, 9u8]) {
            assert(!has_pc(b, c.pcs[1]) && !has_pc(c, b.pcs[1]) && semitone_apart(c.pcs[1], b.pcs[1]));
        }
        if b == pcs_chord([0u8, 2u8, 7u8, 9u8]) {
            assert(!has_pc(b, c.pcs[1]) && !has_pc(c, b.pcs[1]) && semitone_apart(c.pcs[1], b.pcs[1]));
        }
        if b == pcs_chord([0u8, 3u8, 8u8, 9u8]) {
            assert(!has_pc(b, c.pcs[2]) && !has_pc(c, b.pcs[2]) && semitone_apart(c.pcs[2], b.pcs[2]));
        }
        if b == pcs_chord([0u8, 3u8, 7u8, 10u8]) {
            assert(!has_pc(b, c.pcs[3]) && !has_pc(c, b.pcs[3]) && semitone_apart(c.pcs[3], b.pcs[3]));
        }
    }
    assert(base_neighbours(c) =~= nb);
}

/// The base chords adjacent to the representative chord of Q688.
proof fn lemma_neighbours_q688()
    ensures
        rep_chord(Orbit::Q688) == pcs_chord([0u8, 2u8, 6u8, 10u8]),
        base_neighbours(pcs_chord([0u8, 2u8, 6u8, 10u8])) == (set![
            pcs_chord([1u8, 2u8, 6u8, 10u8]),
            pcs_chord([2u8, 6u8, 10u8, 11u8]),
            pcs_chord([0u8, 3u8, 6u8, 10u8]),
            pcs_chord([0u8, 2u8, 7u8, 10u8]),
            pcs_chord([0u8, 2u8, 5u8, 10u8]),
            pcs_chord([0u8, 2u8, 6u8, 9u8]),
        ]),
        chord_in_base(pcs_chord([0u8, 2u8, 6u8, 10u8])),
{
    lemma_rep_literal([0u8, 6u8, 2u8, 10u8], [0u8, 2u8, 6u8, 10u8]);
    let c = pcs_chord([0u8, 2u8, 6u8, 10u8]);
    lemma_legal_at([0u8, 2u8, 6u8, 10u8], 2, 0);
    lemma_legal_at([1u8, 2u8, 6u8, 10u8], 11, 0);
    lemma_legal_at([2u8, 6u8, 10u8, 11u8], 20, 0);
    lemma_legal_at([0u8, 3u8, 6u8, 10u8], 11, 0);
    lemma_legal_at([0u8, 2u8, 7u8, 10u8], 2, 0);
    lemma_legal_at([0u8, 2u8, 5u8, 10u8], 11, 0);
    lemma_legal_at([0u8, 2u8, 6u8, 9u8], 2, 0);
    lemma_no_legal_ordering([0u8, 1u8, 6u8, 10u8]);
    lemma_no_legal_ordering([0u8, 2u8, 6u8, 11u8]);
    let nb = set![
        pcs_chord([1u8, 2u8, 6u8, 10u8]),
        pcs_chord([2u8, 6u8, 10u8, 11u8]),
        pcs_chord([0u8, 3u8, 6u8, 10u8]),
        pcs_chord([0u8, 2u8, 7u8, 10u8]),
        pcs_chord([0u8, 2u8, 5u8, 10u8]),
        pcs_chord([0u8, 2u8, 6u8, 9u8]),
    ];
    assert forall|b: PcChord| base_neighbours(c).contains(b) <==> nb.contains(b) by {
        if base_neighbours(c).contains(b) {
            lemma_adjacent_members(c, b);
            if b.pcs[0] == 1 && b.pcs[1] == 2 && b.pcs[2] == 6 && b.pcs[3] == 10 {
                assert(b.pcs =~= [1u8, 2u8, 6u8, 10u8]);
            }
            if b.pcs[0] == 2 && b.pcs[1] == 6 && b.pcs[2] == 10 && b.pcs[3] == 11 {
                assert(b.pcs =~= [2u8, 6u8, 10u8, 11u8]);
            }
            if b.pcs[0] == 0 && b.pcs[1] == 3 && b.pcs[2] == 6 && b.pcs[3] == 10 {
                assert(b.pcs =~= [0u8, 3u8, 6u8, 10u8]);
            }
            if b.pcs[0] == 0 && b.pcs[1] == 2 && b.pcs[2] == 7 && b.pcs[3] == 10 {
                assert(b.pcs =~= [0u8, 2u8, 7u8, 10u8]);
            }
            if b.pcs[0] == 0 && b.pcs[1] == 2 && b.pcs[2] == 5 && b.pcs[3] == 10 {
                assert(b.pcs =~= [0u8, 2u8, 5u8, 10u8]);
            }
            if b.pcs[0] == 0 && b.pcs[1] == 2 && b.pcs[2] == 6 && b.pcs[3] == 9 {
                assert(b.pcs =~= [0u8, 2u8, 6u8, 9u8]);
            }
            if b.pcs[0] == 0 && b.pcs[1] == 1 && b.pcs[2] == 6 && b.pcs[3] == 10 {
                assert(b.pcs =~= [0u8, 1u8, 6u8, 10u8]);
            }
            if b.pcs[0] == 0 && b.pcs[1] == 2 && b.pcs[2] == 6 && b.pcs[3] == 11 {
                assert(b.pcs =~= [0u8, 2u8, 6u8, 11u8]);
            }
        }
        if b == pcs_chord([1u8, 2u8, 6u8, 10u8]) {
            assert(!has_pc(b, c.pcs[0]) && !has_pc(c, b.pcs[0]) && semitone_apart(c.pcs[0], b.pcs[0]));
        }
        if b == pcs_chord([2u8, 6u8, 10u8, 11u8]) {
            assert(!has_pc(b, c.pcs[0]) && !has_pc(c, b.pcs[3]) && semitone_apart(c.pcs[0], b.pcs[3]));
        }
        if b == pcs_chord([0u8, 3u8, 6u8, 10u8]) {
            assert(!has_pc(b, c.pcs[1]) && !has_pc(c, b.pcs[1]) && semitone_apart(c.pcs[1], b.pcs[1]));
        }
        if b == pcs_chord([0u8, 2u8, 7u8, 10u8]) {
            assert(!has_pc(b, c.pcs[2]) && !has_pc(c, b.pcs[2]) && semitone_apart(c.pcs[2], b.pcs[2]));
        }
        if b == pcs_chord([0u8, 2u8, 5u8, 10u8]) {
            assert(!has_pc(b, c.pcs[2]) && !has_pc(c, b.pcs[2]) && semitone_apart(c.pcs[2], b.pcs[2]));
        }
        if b == pcs_chord([0u8, 2u8, 6u8, 9u8]) {
            assert(!has_pc(b, c.pcs[3]) && !has_pc(c, b.pcs[3]) && semitone_apart(c.pcs[3], b.pcs[3]));
        }
    }
    assert(base_neighbours(c) =~= nb);
}

/// **Degree law.** The degree of an orbit is the number of chords of the
/// base space adjacent to its representative chord: the legal chords reached
/// by moving one of its pitch classes a semitone.
pub proof fn lemma_degree_counts_neighbours(o: Orbit)
    ensures
        chord_in_base(rep_chord(o)),
        base_neighbours(rep_chord(o)).finite(),
        base_neighbours(rep_chord(o)).len() == o.degree_spec(),
{
    match o {
        Orbit::Q777 => {
            lemma_neighbours_q777();
        },
        Orbit::Q767 => {
            lemma_neighbours_q767();
        },
        Orbit::Q787 => {
            lemma_neighbours_q787();
        },
        Orbit::Q676 => {
            lemma_neighbours_q676();
        },
        Orbit::Q686 => {
            lemma_neighbours_q686();
        },
        Orbit::Q878 => {
            lemma_neighbours_q878();
        },
        Orbit::Q868 => {
            lemma_neighbours_q868();
        },
        Orbit::Q776 => {
            lemma_neighbours_q776();
        },
        Orbit::Q877 => {
            lemma_neighbours_q877();
        },
        Orbit::Q867 => {
            lemma_neighbours_q867();
        },
        Orbit::Q876 => {
            lemma_neighbours_q876();
        },
        Orbit::Q788 => {
            lemma_neighbours_q788();
        },
        Orbit::Q786 => {
            lemma_neighbours_q786();
        },
        Orbit::Q688 => {
            lemma_neighbours_q688();
        },
    }
}

// ───────────────────────── every chord of an orbit ─────────────────────────

/// The pitch class that the `g`-th group element moves `v` to.
pub open spec fn move_pc(v: u8, g: int) -> u8 {
    if g < 12 {
        ((v + g as u8) % 12) as u8
    } else {
        (((g - 12) as u8 % 12 + 12 - v) % 12) as u8
    }
}

proof fn lemma_shift_pc(x: u8, y: u8, n: u8)
    by (bit_vector)
    requires
        x < 12,
        y < 12,
    ensures
        (((x + n) % 12) as u8 == ((y + n) % 12) as u8) == (x == y),
        ((((y + n) % 12) as u8 + 12 - ((x + n) % 12) as u8) % 12) == ((y + 12 - x) % 12),
{
}

proof fn lemma_reflect_pc(x: u8, y: u8, n: u8)
    by (bit_vector)
    requires
        x < 12,
        y < 12,
    ensures
        (((n % 12 + 12 - x) % 12) as u8 == ((n % 12 + 12 - y) % 12) as u8) == (x == y),
        ((((n % 12 + 12 - y) % 12) as u8 + 12 - ((n % 12 + 12 - x) % 12) as u8) % 12) == ((x + 12 - y) % 12),
{
}

/// Moving pitch classes by a group element keeps them apart, and keeps
/// forward intervals (transposition) or turns them around (inversion).
proof fn lemma_move_pc(x: u8, y: u8, g: int)
    requires
        x < 12,
        y < 12,
        0 <= g < 24,
    ensures
        (move_pc(x, g) == move_pc(y, g)) == (x == y),
        g < 12 ==> fwd(move_pc(x, g), move_pc(y, g)) == fwd(x, y),
        g >= 12 ==> fwd(move_pc(x, g), move_pc(y, g)) == fwd(y, x),
        move_pc(x, g) < 12,
{
    if g < 12 {
        lemma_shift_pc(x, y, g as u8);
    } else {
        lemma_reflect_pc(x, y, (g - 12) as u8);
    }
}

/// The entries of a group image are the moved entries.
proof fn lemma_image_entries(p: [u8; 4], g: int)
    requires
        0 <= g < 24,
    ensures
        image4(p, g) == [move_pc(p[0], g), move_pc(p[1], g), move_pc(p[2], g), move_pc(p[3], g)],
{
    assert(image4(p, g) =~= [move_pc(p[0], g), move_pc(p[1], g), move_pc(p[2], g), move_pc(p[3], g)]);
}

/// A chord's image under a group element holds a moved pitch class exactly
/// when the chord holds the pitch class.
proof fn lemma_image_has(c: PcChord, g: int, v: u8)
    requires
        c.wf(),
        0 <= g < 24,
        v < 12,
    ensures
        has_pc(ti_image(c, g), move_pc(v, g)) == has_pc(c, v),
{
    lemma_image_wf(c, g);
    lemma_image_entries(c.pcs, g);
    let m = image4(c.pcs, g);
    let w = move_pc(v, g);
    assert(count4(m, w) == count4(ti_image(c, g).pcs, w));
    lemma_move_pc(c.pcs[0], v, g);
    lemma_move_pc(c.pcs[1], v, g);
    lemma_move_pc(c.pcs[2], v, g);
    lemma_move_pc(c.pcs[3], v, g);
}

/// Every arrangement of four distinct positions is one of the 24 permutations.
proof fn lemma_perm_onto(a: int, b: int, c: int, d: int)
    requires
        0 <= a < 4 && 0 <= b < 4 && 0 <= c < 4 && 0 <= d < 4,
        a != b && a != c && a != d && b != c && b != d && c != d,
    ensures
        exists|k: int| 0 <= k < 24 && perm4(k) == (a, b, c, d),
{
    if a == 0 && b == 1 && c == 2 {
        assert(perm4(0) == (0int, 1int, 2int, 3int));
    }
    if a == 0 && b == 1 && c == 3 {
        assert(perm4(1) == (0int, 1int, 3int, 2int));
    }
    if a == 0 && b == 2 && c == 1 {
        assert(perm4(2) == (0int, 2int, 1int, 3int));
    }
    if a == 0 && b == 2 && c == 3 {
        assert(perm4(3) == (0int, 2int, 3int, 1int));
    }
    if a == 0 && b == 3 && c == 1 {
        assert(perm4(4) == (0int, 3int, 1int, 2int));
    }
    if a == 0 && b == 3 && c == 2 {
        assert(perm4(5) == (0int, 3int, 2int, 1int));
    }
    if a == 1 && b == 0 && c == 2 {
        assert(perm4(6) == (1int, 0int, 2int, 3int));
    }
    if a == 1 && b == 0 && c == 3 {
        assert(perm4(7) == (1int, 0int, 3int, 2int));
    }
    if a == 1 && b == 2 && c == 0 {
        assert(perm4(8) == (1int, 2int, 0int, 3int));
    }
    if a == 1 && b == 2 && c == 3 {
        assert(perm4(9) == (1int, 2int, 3int, 0int));
    }
    if a == 1 && b == 3 && c == 0 {
        assert(perm4(10) == (1int, 3int, 0int, 2int));
    }
    if a == 1 && b == 3 && c == 2 {
        assert(perm4(11) == (1int, 3int, 2int, 0int));
    }
    if a == 2 && b == 0 && c == 1 {
        assert(perm4(12) == (2int, 0int, 1int, 3int));
    }
    if a == 2 && b == 0 && c == 3 {
        assert(perm4(13) == (2int, 0int, 3int, 1int));
    }
    if a == 2 && b == 1 && c == 0 {
        assert(perm4(14) == (2int, 1int, 0int, 3int));
    }
    if a == 2 && b == 1 && c == 3 {
        assert(perm4(15) == (2int, 1int, 3int, 0int));
    }
    if a == 2 && b == 3 && c == 0 {
        assert(perm4(16) == (2int, 3int, 0int, 1int));
    }
    if a == 2 && b == 3 && c == 1 {
        assert(perm4(17) == (2int, 3int, 1int, 0int));
    }
    if a == 3 && b == 0 && c == 1 {
        assert(perm4(18) == (3int, 0int, 1int, 2int));
    }
    if a == 3 && b == 0 && c == 2 {
        assert(perm4(19) == (3int, 0int, 2int, 1int));
    }
    if a == 3 && b == 1 && c == 0 {
        assert(perm4(20) == (3int, 1int, 0int, 2int));
    }
    if a == 3 && b == 1 && c == 2 {
        assert(perm4(21) == (3int, 1int, 2int, 0int));
    }
    if a == 3 && b == 2 && c == 0 {
        assert(perm4(22) == (3int, 2int, 0int, 1int));
    }
    if a == 3 && b == 2 && c == 1 {
        assert(perm4(23) == (3int, 2int, 1int, 0int));
    }
}

/// Every arrangement of the entries of distinct pitch classes is one of
/// their 24 orderings.
proof fn lemma_arrangement_is_ordering(p: [u8; 4], q: [u8; 4])
    requires
        distinct4(p),
        p[0] <= 11 && p[1] <= 11 && p[2] <= 11 && p[3] <= 11,
        same_elements4(p, q),
    ensures
        exists|k: int| 0 <= k < 24 && ordering_at(p, k) == q,
{
    lemma_rearranged_range(p, q);
    lemma_same_flip(p, q);
    lemma_rearranged_range(q, p);
    assert(q[0] == q[0] && q[1] == q[1] && q[2] == q[2] && q[3] == q[3]);
    let a = choose|j: int| 0 <= j < 4 && #[trigger] p[j] == q[0];
    let b = choose|j: int| 0 <= j < 4 && #[trigger] p[j] == q[1];
    let c = choose|j: int| 0 <= j < 4 && #[trigger] p[j] == q[2];
    let d = choose|j: int| 0 <= j < 4 && #[trigger] p[j] == q[3];
    assert(a != b && a != c && a != d && b != c && b != d && c != d);
    lemma_perm_onto(a, b, c, d);
    let k = choose|k: int| 0 <= k < 24 && perm4(k) == (a, b, c, d);
    assert(ordering_at(p, k) =~= q);
}

/// Moving an ordering by a group element (and, for an inversion, reading
/// it backwards) keeps its walk legal.
#[verifier::spinoff_prover]
proof fn lemma_moved_walk(o: [u8; 4], g: int)
    requires
        o[0] <= 11 && o[1] <= 11 && o[2] <= 11 && o[3] <= 11,
        0 <= g < 24,
        walk_structure(o).legal_spec(),
    ensures
        ({
            let mo = image4(o, g);
            walk_structure(if g < 12 { mo } else { [mo[3], mo[2], mo[1], mo[0]] }).legal_spec()
        }),
{
    lemma_image_entries(o, g);
    let m0 = move_pc(o[0], g);
    let m1 = move_pc(o[1], g);
    let m2 = move_pc(o[2], g);
    let m3 = move_pc(o[3], g);
    let mo = image4(o, g);
    assert(mo[0] == m0 && mo[1] == m1 && mo[2] == m2 && mo[3] == m3);
    if g < 12 {
        lemma_move_pc(o[0], o[1], g);
        lemma_move_pc(o[1], o[2], g);
        lemma_move_pc(o[2], o[3], g);
        assert(walk_structure(mo) == walk_structure(o));
    } else {
        lemma_move_pc(o[3], o[2], g);
        lemma_move_pc(o[2], o[1], g);
        lemma_move_pc(o[1], o[0], g);
        let q = [m3, m2, m1, m0];
        assert(fwd(m3, m2) == fwd(o[2], o[3]));
        assert(fwd(m2, m1) == fwd(o[1], o[2]));
        assert(fwd(m1, m0) == fwd(o[0], o[1]));
        assert(walk_structure(q) == IntervalStructure(walk_structure(o).2, walk_structure(o).1, walk_structure(o).0));
    }
}

/// The moved ordering (read backwards for an inversion) is an arrangement
/// of the image chord's pitch classes.
proof fn lemma_moved_arrangement(b: PcChord, k: int, g: int)
    requires
        b.wf(),
        0 <= k < 24,
        0 <= g < 24,
    ensures
        ({
            let mo = image4(ordering_at(b.pcs, k), g);
            same_elements4(ti_image(b, g).pcs, if g < 12 { mo } else { [mo[3], mo[2], mo[1], mo[0]] })
        }),
{
    let t = ti_image(b, g);
    let o = ordering_at(b.pcs, k);
    lemma_image_wf(b, g);
    lemma_ordering_same(b, k);
    let mo = image4(o, g);
    let n: u8 = if g < 12 { g as u8 } else { (g - 12) as u8 };
    if g < 12 {
        lemma_shift_same(b.pcs, o, n);
    } else {
        lemma_reflect_same(b.pcs, o, n);
    }
    assert(same_elements4(image4(b.pcs, g), mo));
    lemma_same_flip(image4(b.pcs, g), t.pcs);
    lemma_same_chain(t.pcs, image4(b.pcs, g), mo);
    let q = if g < 12 { mo } else { [mo[3], mo[2], mo[1], mo[0]] };
    assert(same_elements4(t.pcs, q)) by {
        assert forall|v: u8| #![auto] count4(t.pcs, v) == count4(q, v) by {
            assert(count4(t.pcs, v) == count4(mo, v));
        }
    }
}

/// The image of a base chord under a group element is a base chord.
proof fn lemma_image_in_base(b: PcChord, g: int)
    requires
        chord_in_base(b),
        0 <= g < 24,
    ensures
        chord_in_base(ti_image(b, g)),
{
    let t = ti_image(b, g);
    lemma_image_wf(b, g);
    lemma_first_legal_bounds(b.pcs, 0);
    let k = first_legal_from(b.pcs, 0)->0;
    let o = ordering_at(b.pcs, k);
    lemma_ordering_same(b, k);
    lemma_moved_walk(o, g);
    lemma_moved_arrangement(b, k, g);
    let mo = image4(o, g);
    let q = if g < 12 { mo } else { [mo[3], mo[2], mo[1], mo[0]] };
    lemma_arrangement_is_ordering(t.pcs, q);
    let k2 = choose|k2: int| 0 <= k2 < 24 && ordering_at(t.pcs, k2) == q;
    lemma_legal_at(t.pcs, k2, 0);
}

/// Two chords sharing three pitch classes each way, one pitch class of each
/// missing from the other and a semitone apart, are adjacent.
proof fn lemma_adjacent_intro(a: PcChord, b: PcChord, u: u8, v: u8)
    requires
        shared_count(a, b) == 3,
        shared_count(b, a) == 3,
        has_pc(a, u),
        has_pc(b, v),
        !has_pc(b, u),
        !has_pc(a, v),
        semitone_apart(u, v),
    ensures
        adjacent_spec(a, b),
{
    let i: int = if a.pcs[0] == u { 0 } else if a.pcs[1] == u { 1 } else if a.pcs[2] == u { 2 } else { 3 };
    let j: int = if b.pcs[0] == v { 0 } else if b.pcs[1] == v { 1 } else if b.pcs[2] == v { 2 } else { 3 };
    assert(a.pcs[i] == u && b.pcs[j] == v);
}

/// An image of a chord shares with the image of another as many pitch
/// classes as the chords share.
proof fn lemma_image_shared(x: PcChord, b: PcChord, g: int)
    requires
        x.wf(),
        b.wf(),
        0 <= g < 24,
    ensures
        shared_count(ti_image(x, g), ti_image(b, g)) == shared_count(x, b),
{
    let gx = ti_image(x, g);
    let gb = ti_image(b, g);
    lemma_image_wf(x, g);
    lemma_image_entries(x.pcs, g);
    let m = image4(x.pcs, g);
    assert(m[0] <= 11 && m[1] <= 11 && m[2] <= 11 && m[3] <= 11) by {
        lemma_move_pc(x.pcs[0], x.pcs[0], g);
        lemma_move_pc(x.pcs[1], x.pcs[1], g);
        lemma_move_pc(x.pcs[2], x.pcs[2], g);
        lemma_move_pc(x.pcs[3], x.pcs[3], g);
    }
    let f = |w: u8| if has_pc(gb, w) { 1int } else { 0int };
    lemma_sum_rearranged(m, gx.pcs, f);
    lemma_image_has(b, g, x.pcs[0]);
    lemma_image_has(b, g, x.pcs[1]);
    lemma_image_has(b, g, x.pcs[2]);
    lemma_image_has(b, g, x.pcs[3]);
}

/// Group elements keep the counts of shared pitch classes.
proof fn lemma_image_shared_both(x: PcChord, b: PcChord, g: int)
    requires
        x.wf(),
        b.wf(),
        0 <= g < 24,
    ensures
        shared_count(ti_image(x, g), ti_image(b, g)) == shared_count(x, b),
        shared_count(ti_image(b, g), ti_image(x, g)) == shared_count(b, x),
{
    lemma_image_shared(x, b, g);
    lemma_image_shared(b, x, g);
}

/// Group elements keep which pitch classes two chords hold.
#[verifier::spinoff_prover]
proof fn lemma_image_pcs(x: PcChord, b: PcChord, g: int, p: u8, q: u8)
    requires
        x.wf(),
        b.wf(),
        0 <= g < 24,
        p < 12,
        q < 12,
    ensures
        has_pc(ti_image(x, g), move_pc(p, g)) == has_pc(x, p),
        has_pc(ti_image(b, g), move_pc(p, g)) == has_pc(b, p),
        has_pc(ti_image(x, g), move_pc(q, g)) == has_pc(x, q),
        has_pc(ti_image(b, g), move_pc(q, g)) == has_pc(b, q),
        semitone_apart(p, q) ==> semitone_apart(move_pc(p, g), move_pc(q, g)),
{
    lemma_image_has(x, g, p);
    lemma_image_has(b, g, p);
    lemma_image_has(x, g, q);
    lemma_image_has(b, g, q);
    lemma_move_pc(p, q, g);
    lemma_move_pc(q, p, g);
}

/// Group elements carry adjacent chords to adjacent chords.
proof fn lemma_image_adjacent(x: PcChord, b: PcChord, g: int)
    requires
        x.wf(),
        b.wf(),
        adjacent_spec(x, b),
        0 <= g < 24,
    ensures
        adjacent_spec(ti_image(x, g), ti_image(b, g)),
{
    let (i, j) = choose|i: int, j: int|
        0 <= i < 4 && 0 <= j < 4 && !has_pc(b, #[trigger] x.pcs[i]) && !has_pc(x, #[trigger] b.pcs[j])
            && semitone_apart(x.pcs[i], b.pcs[j]);
    let p = x.pcs[i];
    let q = b.pcs[j];
    assert(has_pc(x, p) && has_pc(b, q) && !has_pc(b, p) && !has_pc(x, q) && semitone_apart(p, q));
    assert(p < 12 && q < 12);
    lemma_image_shared_both(x, b, g);
    lemma_image_pcs(x, b, g, p, q);
    lemma_adjacent_intro(ti_image(x, g), ti_image(b, g), move_pc(p, g), move_pc(q, g));
}

/// The inverse of the inverse of a group element is the element.
proof fn lemma_inverse_inverse(g: int)
    requires
        0 <= g < 24,
    ensures
        0 <= inverse_index(g) < 24,
        inverse_index(inverse_index(g)) == g,
{
}

/// A group element carries the base neighbours of a chord one for one onto
/// the base neighbours of its image.
proof fn lemma_neighbours_image(x: PcChord, g: int)
    requires
        x.wf(),
        0 <= g < 24,
        base_neighbours(x).finite(),
    ensures
        base_neighbours(ti_image(x, g)).finite(),
        base_neighbours(ti_image(x, g)).len() == base_neighbours(x).len(),
{
    let h = inverse_index(g);
    lemma_inverse_inverse(g);
    lemma_image_inverse(x, g);
    lemma_image_wf(x, g);
    let gx = ti_image(x, g);
    let f = |b: PcChord| ti_image(b, g);
    let n = base_neighbours(x);
    let ng = base_neighbours(gx);
    assert(injective_on(f, n)) by {
        assert forall|b1: PcChord, b2: PcChord| n.contains(b1) && n.contains(b2) && #[trigger] f(b1) == #[trigger] f(b2) implies b1 == b2 by {
            lemma_image_inverse(b1, g);
            lemma_image_inverse(b2, g);
        }
    }
    assert(n.map(f) =~= ng) by {
        assert forall|b: PcChord| n.map(f).contains(b) implies ng.contains(b) by {
            let a = choose|a: PcChord| n.contains(a) && f(a) == b;
            lemma_image_in_base(a, g);
            lemma_image_adjacent(x, a, g);
        }
        assert forall|b: PcChord| ng.contains(b) implies n.map(f).contains(b) by {
            let a = ti_image(b, h);
            lemma_image_in_base(b, h);
            lemma_image_adjacent(gx, b, h);
            lemma_image_inverse(b, h);
            assert(n.contains(a));
            assert(f(a) == b);
        }
    }
    vstd::set_lib::lemma_map_size(n, ng, f);
}

/// The adjacency row of a chord of a base space lists its base neighbours,
/// one index each.
proof fn lemma_row_counts_neighbours(chords: Seq<PcChord>, adj: Seq<Seq<usize>>, i: int)
    requires
        base_space_wf(chords, adj),
        chords.len() <= usize::MAX,
        0 <= i < chords.len(),
    ensures
        base_neighbours(chords[i]).finite(),
        adj[i].len() == base_neighbours(chords[i]).len(),
{
    let c = chords[i];
    let row = adj[i];
    assert(is_neighbor_row(chords, c, row));
    assert(row.no_duplicates()) by {
        assert forall|a: int, b: int| 0 <= a < row.len() && 0 <= b < row.len() && a != b implies row[a] != row[b] by {
            if a < b {
                assert(row[a] < row[b]);
            } else {
                assert(row[b] < row[a]);
            }
        }
    }
    row.unique_seq_to_set();
    let s = row.to_set();
    let f = |x: usize| chords[x as int];
    let nb = base_neighbours(c);
    assert(s.finite()) by {
        vstd::seq_lib::seq_to_set_is_finite(row);
    }
    assert(injective_on(f, s)) by {
        assert forall|x: usize, y: usize| s.contains(x) && s.contains(y) && #[trigger] f(x) == #[trigger] f(y) implies x == y by {
            let a = row.index_of(x);
            let b = row.index_of(y);
            assert(row[a] == x);
            assert(row[b] == y);
            assert(x < chords.len() && y < chords.len());
            if x < y {
                assert(chord_key(chords[x as int]) < chord_key(chords[y as int]));
            } else if y < x {
                assert(chord_key(chords[y as int]) < chord_key(chords[x as int]));
            }
        }
    }
    assert(s.map(f) =~= nb) by {
        assert forall|b: PcChord| s.map(f).contains(b) implies nb.contains(b) by {
            let x = choose|x: usize| s.contains(x) && f(x) == b;
            let a = row.index_of(x);
            assert(row[a] == x);
            assert(row.contains(x));
            assert(chord_in_base(chords[x as int]));
        }
        assert forall|b: PcChord| nb.contains(b) implies s.map(f).contains(b) by {
            assert(chords.contains(b));
            let x = choose|x: int| 0 <= x < chords.len() && chords[x] == b;
            assert(row.contains(x as usize));
            assert(s.contains(x as usize));
            assert(f(x as usize) == b);
        }
    }
    vstd::set_lib::lemma_map_size(s, nb, f);
}

/// **Degree law in the base space.** Every base space holds the
/// representative chord of each orbit, and its adjacency row there has as
/// many entries as the orbit's degree.
pub proof fn lemma_degree_is_row_length(chords: Seq<PcChord>, adj: Seq<Seq<usize>>, o: Orbit)
    requires
        base_space_wf(chords, adj),
        chords.len() <= usize::MAX,
    ensures
        exists|i: int| 0 <= i < chords.len() && chords[i] == rep_chord(o) && #[trigger] adj[i].len() == o.degree_spec(),
{
    lemma_degree_counts_neighbours(o);
    let c = rep_chord(o);
    assert(chords.contains(c));
    let i = choose|i: int| 0 <= i < chords.len() && chords[i] == c;
    lemma_row_counts_neighbours(chords, adj, i);
}

/// **Degree law for every chord.** Each chord of a base space has as many
/// neighbours in the graph as the degree of the orbit it is classified into.
pub proof fn lemma_degree_of_every_chord(chords: Seq<PcChord>, adj: Seq<Seq<usize>>, i: int)
    requires
        base_space_wf(chords, adj),
        chords.len() <= usize::MAX,
        0 <= i < chords.len(),
    ensures
        classify_spec(chords[i]) is Some,
        adj[i].len() == classify_spec(chords[i])->0.degree_spec(),
{
    let c = chords[i];
    lemma_base_chord_classified(c);
    let o = classify_spec(c)->0;
    lemma_classified_rep_in_orbit(c, 0);
    lemma_orbit_members(c, 24, rep_chord(o));
    let g = choose|g: int| 0 <= g < 24 && ti_image(c, g) == rep_chord(o);
    lemma_image_inverse(c, g);
    lemma_degree_counts_neighbours(o);
    lemma_rep_classified(o);
    let h = inverse_index(g);
    lemma_image_wf(c, g);
    lemma_neighbours_image(rep_chord(o), h);
    lemma_row_counts_neighbours(chords, adj, i);
}

} // verus!

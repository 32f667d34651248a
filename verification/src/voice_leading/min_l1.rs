//! Optimal-assignment voice-leading distance for voiced chords.

use vstd::prelude::*;

use crate::quintal::fiber::{abs_diff, abs_diff_u8, l1_spec};
use crate::quintal::types::{ascending4, perm4, perm_at, VoicedChord};

verus! {

/// Total semitone movement when voice `i` of `a` moves to voice `perm[i]` of `b`.
pub open spec fn assignment_cost(a: [u8; 4], b: [u8; 4], k: int) -> int {
    let (p0, p1, p2, p3) = perm4(k);
    abs_diff(a[0], b[p0]) + abs_diff(a[1], b[p1]) + abs_diff(a[2], b[p2]) + abs_diff(a[3], b[p3])
}

/// The least assignment cost over the first `k` permutations (in
/// lexicographic order), starting from `u32::MAX`.
pub open spec fn least_cost(a: [u8; 4], b: [u8; 4], k: int) -> int
    decreases k,
{
    if k <= 0 {
        u32::MAX as int
    } else {
        let m = least_cost(a, b, k - 1);
        if assignment_cost(a, b, k - 1) < m {
            assignment_cost(a, b, k - 1)
        } else {
            m
        }
    }
}

/// The assignment-optimal voice-leading distance between two voicings.
pub open spec fn min_l1_spec(a: [u8; 4], b: [u8; 4]) -> int {
    least_cost(a, b, 24)
}

/// The least cost is attained by some permutation and bounds every permutation's cost.
pub proof fn lemma_least_cost(a: [u8; 4], b: [u8; 4], k: int)
    requires
        1 <= k <= 24,
    ensures
        exists|j: int| 0 <= j < k && least_cost(a, b, k) == assignment_cost(a, b, j),
        forall|j: int| 0 <= j < k ==> least_cost(a, b, k) <= #[trigger] assignment_cost(a, b, j),
        0 <= least_cost(a, b, k) <= 1020,
    decreases k,
{
    if k > 1 {
        lemma_least_cost(a, b, k - 1);
    } else {
        assert(least_cost(a, b, 0) == u32::MAX);
    }
    assert(0 <= assignment_cost(a, b, k - 1) <= 1020);
}

/// The position, in lexicographic order, of the inverse of the `k`-th
/// permutation of `[0, 1, 2, 3]`.
pub open spec fn inverse_perm_index(k: int) -> int {
    seq![0int, 1, 2, 4, 3, 5, 6, 7, 12, 18, 13, 19, 8, 10, 14, 20, 16, 22, 9, 11, 15, 21, 17, 23][k]
}

/// Assigning the voices of `b` to those of `a` by the inverse permutation
/// moves the same voices by the same amounts.
proof fn lemma_inverse_assignment(a: [u8; 4], b: [u8; 4], k: int)
    requires
        0 <= k < 24,
    ensures
        0 <= inverse_perm_index(k) < 24,
        assignment_cost(b, a, inverse_perm_index(k)) == assignment_cost(a, b, k),
{
    assert(forall|x: u8, y: u8| #[trigger] abs_diff(x, y) == abs_diff(y, x));
    if k < 12 {
        if k < 6 {
            assert(k == 0 || k == 1 || k == 2 || k == 3 || k == 4 || k == 5);
        } else {
            assert(k == 6 || k == 7 || k == 8 || k == 9 || k == 10 || k == 11);
        }
    } else {
        if k < 18 {
            assert(k == 12 || k == 13 || k == 14 || k == 15 || k == 16 || k == 17);
        } else {
            assert(k == 18 || k == 19 || k == 20 || k == 21 || k == 22 || k == 23);
        }
    }
}

/// **Symmetry of the voice-leading distance.** The least assignment cost
/// from `a` to `b` equals the least assignment cost from `b` to `a`.
pub proof fn lemma_min_l1_symmetric(a: [u8; 4], b: [u8; 4])
    ensures
        min_l1_spec(a, b) == min_l1_spec(b, a),
{
    lemma_least_cost(a, b, 24);
    lemma_least_cost(b, a, 24);
    let ja = choose|j: int| 0 <= j < 24 && least_cost(a, b, 24) == assignment_cost(a, b, j);
    let jb = choose|j: int| 0 <= j < 24 && least_cost(b, a, 24) == assignment_cost(b, a, j);
    lemma_inverse_assignment(a, b, ja);
    lemma_inverse_assignment(b, a, jb);
}

/// The assignment-optimal distance is at most the positional L1 distance,
/// which keeps every voice in place.
pub proof fn lemma_min_l1_at_most_l1(a: [u8; 4], b: [u8; 4])
    ensures
        min_l1_spec(a, b) <= l1_spec(a, b),
{
    lemma_least_cost(a, b, 24);
    assert(perm4(0) == (0int, 1int, 2int, 3int));
    assert(least_cost(a, b, 24) <= assignment_cost(a, b, 0));
}

/// Exchanging the targets of two voices never helps when both voicings
/// ascend: `|x1 - y1| + |x2 - y2| <= |x1 - y2| + |x2 - y1|` for `x1 <= x2`
/// and `y1 <= y2`.
proof fn lemma_uncrossed(x1: u8, x2: u8, y1: u8, y2: u8)
    requires
        x1 <= x2,
        y1 <= y2,
    ensures
        abs_diff(x1, y1) + abs_diff(x2, y2) <= abs_diff(x1, y2) + abs_diff(x2, y1),
{
}

/// Every assignment between two ascending voicings costs at least the
/// positional one.
#[verifier::spinoff_prover]
proof fn lemma_sorted_assignment(a: [u8; 4], b: [u8; 4], k: int)
    requires
        ascending4(a),
        ascending4(b),
        0 <= k < 24,
    ensures
        assignment_cost(a, b, k) >= l1_spec(a, b),
{
    if k == 0 {
        assert(perm4(0) == (0int, 1int, 2int, 3int));
    } else if k == 1 {
        assert(perm4(1) == (0int, 1int, 3int, 2int));
        lemma_uncrossed(a[2], a[3], b[2], b[3]);
    } else if k == 2 {
        assert(perm4(2) == (0int, 2int, 1int, 3int));
        lemma_uncrossed(a[1], a[2], b[1], b[2]);
    } else if k == 3 {
        assert(perm4(3) == (0int, 2int, 3int, 1int));
        lemma_uncrossed(a[2], a[3], b[1], b[3]);
        lemma_uncrossed(a[1], a[2], b[1], b[2]);
    } else if k == 4 {
        assert(perm4(4) == (0int, 3int, 1int, 2int));
        lemma_uncrossed(a[1], a[2], b[1], b[3]);
        lemma_uncrossed(a[2], a[3], b[2], b[3]);
    } else if k == 5 {
        assert(perm4(5) == (0int, 3int, 2int, 1int));
        lemma_uncrossed(a[1], a[2], b[2], b[3]);
        lemma_uncrossed(a[2], a[3], b[1], b[3]);
        lemma_uncrossed(a[1], a[2], b[1], b[2]);
    } else if k == 6 {
        assert(perm4(6) == (1int, 0int, 2int, 3int));
        lemma_uncrossed(a[0], a[1], b[0], b[1]);
    } else if k == 7 {
        assert(perm4(7) == (1int, 0int, 3int, 2int));
        lemma_uncrossed(a[0], a[1], b[0], b[1]);
        lemma_uncrossed(a[2], a[3], b[2], b[3]);
    } else if k == 8 {
        assert(perm4(8) == (1int, 2int, 0int, 3int));
        lemma_uncrossed(a[1], a[2], b[0], b[2]);
        lemma_uncrossed(a[0], a[1], b[0], b[1]);
    } else if k == 9 {
        assert(perm4(9) == (1int, 2int, 3int, 0int));
        lemma_uncrossed(a[2], a[3], b[0], b[3]);
        lemma_uncrossed(a[1], a[2], b[0], b[2]);
        lemma_uncrossed(a[0], a[1], b[0], b[1]);
    } else if k == 10 {
        assert(perm4(10) == (1int, 3int, 0int, 2int));
        lemma_uncrossed(a[1], a[2], b[0], b[3]);
        lemma_uncrossed(a[0], a[1], b[0], b[1]);
        lemma_uncrossed(a[2], a[3], b[2], b[3]);
    } else if k == 11 {
        assert(perm4(11) == (1int, 3int, 2int, 0int));
        lemma_uncrossed(a[1], a[2], b[2], b[3]);
        lemma_uncrossed(a[2], a[3], b[0], b[3]);
        lemma_uncrossed(a[1], a[2], b[0], b[2]);
        lemma_uncrossed(a[0], a[1], b[0], b[1]);
    } else if k == 12 {
        assert(perm4(12) == (2int, 0int, 1int, 3int));
        lemma_uncrossed(a[0], a[1], b[0], b[2]);
        lemma_uncrossed(a[1], a[2], b[1], b[2]);
    } else if k == 13 {
        assert(perm4(13) == (2int, 0int, 3int, 1int));
        lemma_uncrossed(a[0], a[1], b[0], b[2]);
        lemma_uncrossed(a[2], a[3], b[1], b[3]);
        lemma_uncrossed(a[1], a[2], b[1], b[2]);
    } else if k == 14 {
        assert(perm4(14) == (2int, 1int, 0int, 3int));
        lemma_uncrossed(a[0], a[1], b[1], b[2]);
        lemma_uncrossed(a[1], a[2], b[0], b[2]);
        lemma_uncrossed(a[0], a[1], b[0], b[1]);
    } else if k == 15 {
        assert(perm4(15) == (2int, 1int, 3int, 0int));
        lemma_uncrossed(a[0], a[1], b[1], b[2]);
        lemma_uncrossed(a[2], a[3], b[0], b[3]);
        lemma_uncrossed(a[1], a[2], b[0], b[2]);
        lemma_uncrossed(a[0], a[1], b[0], b[1]);
    } else if k == 16 {
        assert(perm4(16) == (2int, 3int, 0int, 1int));
        lemma_uncrossed(a[1], a[2], b[0], b[3]);
        lemma_uncrossed(a[0], a[1], b[0], b[2]);
        lemma_uncrossed(a[2], a[3], b[1], b[3]);
        lemma_uncrossed(a[1], a[2], b[1], b[2]);
    } else if k == 17 {
        assert(perm4(17) == (2int, 3int, 1int, 0int));
        lemma_uncrossed(a[1], a[2], b[1], b[3]);
        lemma_uncrossed(a[0], a[1], b[1], b[2]);
        lemma_uncrossed(a[2], a[3], b[0], b[3]);
        lemma_uncrossed(a[1], a[2], b[0], b[2]);
        lemma_uncrossed(a[0], a[1], b[0], b[1]);
    } else if k == 18 {
        assert(perm4(18) == (3int, 0int, 1int, 2int));
        lemma_uncrossed(a[0], a[1], b[0], b[3]);
        lemma_uncrossed(a[1], a[2], b[1], b[3]);
        lemma_uncrossed(a[2], a[3], b[2], b[3]);
    } else if k == 19 {
        assert(perm4(19) == (3int, 0int, 2int, 1int));
        lemma_uncrossed(a[0], a[1], b[0], b[3]);
        lemma_uncrossed(a[1], a[2], b[2], b[3]);
        lemma_uncrossed(a[2], a[3], b[1], b[3]);
        lemma_uncrossed(a[1], a[2], b[1], b[2]);
    } else if k == 20 {
        assert(perm4(20) == (3int, 1int, 0int, 2int));
        lemma_uncrossed(a[0], a[1], b[1], b[3]);
        lemma_uncrossed(a[1], a[2], b[0], b[3]);
        lemma_uncrossed(a[0], a[1], b[0], b[1]);
        lemma_uncrossed(a[2], a[3], b[2], b[3]);
    } else if k == 21 {
        assert(perm4(21) == (3int, 1int, 2int, 0int));
        lemma_uncrossed(a[0], a[1], b[1], b[3]);
        lemma_uncrossed(a[1], a[2], b[2], b[3]);
        lemma_uncrossed(a[2], a[3], b[0], b[3]);
        lemma_uncrossed(a[1], a[2], b[0], b[2]);
        lemma_uncrossed(a[0], a[1], b[0], b[1]);
    } else if k == 22 {
        assert(perm4(22) == (3int, 2int, 0int, 1int));
        lemma_uncrossed(a[0], a[1], b[2], b[3]);
        lemma_uncrossed(a[1], a[2], b[0], b[3]);
        lemma_uncrossed(a[0], a[1], b[0], b[2]);
        lemma_uncrossed(a[2], a[3], b[1], b[3]);
        lemma_uncrossed(a[1], a[2], b[1], b[2]);
    } else if k == 23 {
        assert(perm4(23) == (3int, 2int, 1int, 0int));
        lemma_uncrossed(a[0], a[1], b[2], b[3]);
        lemma_uncrossed(a[1], a[2], b[1], b[3]);
        lemma_uncrossed(a[0], a[1], b[1], b[2]);
        lemma_uncrossed(a[2], a[3], b[0], b[3]);
        lemma_uncrossed(a[1], a[2], b[0], b[2]);
        lemma_uncrossed(a[0], a[1], b[0], b[1]);
    }
}

/// **For ascending voicings the positional matching is optimal:** the
/// assignment-optimal distance equals the positional L1 distance.
pub proof fn lemma_min_l1_ascending(a: [u8; 4], b: [u8; 4])
    requires
        ascending4(a),
        ascending4(b),
    ensures
        min_l1_spec(a, b) == l1_spec(a, b),
{
    lemma_least_cost(a, b, 24);
    lemma_min_l1_at_most_l1(a, b);
    let j = choose|j: int| 0 <= j < 24 && least_cost(a, b, 24) == assignment_cost(a, b, j);
    lemma_sorted_assignment(a, b, j);
}

/// Minimum voice-leading L1 distance between two four-voice chords: the
/// cheapest total semitone movement over the 24 ways of assigning the
/// voices of `a` to the voices of `b`.
pub fn min_voiced_chord_l1(a: &VoicedChord, b: &VoicedChord) -> (r: u32)
    ensures
        r == min_l1_spec(a.pitches, b.pitches),
        r <= 1020,
{
    let mut best: u32 = u32::MAX;
    let mut k: usize = 0;
    while k < 24
        invariant
            0 <= k <= 24,
            best == least_cost(a.pitches, b.pitches, k as int),
        decreases 24 - k,
    {
        let (p0, p1, p2, p3) = perm_at(k);
        let dist: u32 = abs_diff_u8(a.pitches[0], b.pitches[p0]) as u32 + abs_diff_u8(
            a.pitches[1],
            b.pitches[p1],
        ) as u32 + abs_diff_u8(a.pitches[2], b.pitches[p2]) as u32 + abs_diff_u8(
            a.pitches[3],
            b.pitches[p3],
        ) as u32;
        if dist < best {
            best = dist;
        }
        k = k + 1;
    }
    proof {
        lemma_least_cost(a.pitches, b.pitches, 24);
    }
    best
}

} // verus!

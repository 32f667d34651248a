//! Quintal/quartal duality: a chord stacked in fifths from the bottom and
//! read from the top is a chord of the same orbit.

use vstd::prelude::*;

use super::base_space::BaseSpace;
use super::classification::{lemma_reading_backwards_keeps_orbit, reversed, stack_from_zero, stacked_chord};
use super::orbit::{all_orbits, classify_orbit, classify_spec, Orbit};
use super::types::{distinct4, sort4, IntervalStructure, PcChord};

verus! {

/// Reverse an interval structure: `(a, b, c)` becomes `(c, b, a)`.
pub fn reverse_interval_structure(is: &IntervalStructure) -> (r: IntervalStructure)
    ensures
        r == reversed(*is),
{
    IntervalStructure(is.2, is.1, is.0)
}

/// The chord stacked from pitch class 0 by the intervals of `is`.
fn stacked_pc_chord(is: &IntervalStructure) -> (r: PcChord)
    requires
        is.legal_spec(),
    ensures
        r == stacked_chord(*is),
{
    let p1: u8 = is.0 % 12;
    let p2: u8 = (p1 + is.1) % 12;
    let p3: u8 = (p2 + is.2) % 12;
    let pcs = [0u8, p1, p2, p3];
    proof {
        assert(p2 == (is.0 + is.1) % 12);
        assert(p3 == (is.0 + is.1 + is.2) % 12);
        assert(pcs =~= stack_from_zero(*is));
    }
    PcChord { pcs: sort4(pcs) }
}

/// An orbit is self-dual when its representative stacking, read backwards,
/// stacks a chord of the same orbit as the stacking read forwards.
pub open spec fn self_dual_spec(o: Orbit) -> bool {
    classify_spec(stacked_chord(reversed(o.rep_spec()))) == classify_spec(stacked_chord(o.rep_spec()))
}

/// Check that an orbit is self-dual under reversal of its interval
/// structure. Every orbit is.
pub fn orbit_self_duality(orbit: &Orbit) -> (r: bool)
    ensures
        r == self_dual_spec(*orbit),
        r,
{
    let is = orbit.representative();
    proof {
        assert(distinct4(stack_from_zero(is)));
        lemma_reading_backwards_keeps_orbit(is);
    }
    let forward = stacked_pc_chord(&is);
    let backward = stacked_pc_chord(&reverse_interval_structure(&is));
    let a = classify_orbit(&forward);
    let b = classify_orbit(&backward);
    match (a, b) {
        (Some(x), Some(y)) => x == y,
        (None, None) => true,
        _ => false,
    }
}

/// Verify that all 14 orbits of the base space are self-dual: the quintal
/// and quartal readings of each representative stacking fall in one orbit.
/// The orbits checked are the 14 into which `space` is partitioned.
pub fn verify_all_orbits_self_dual(space: &BaseSpace) -> (r: bool)
    ensures
        r == (forall|i: int| 0 <= i < 14 ==> self_dual_spec(#[trigger] all_orbits()[i])),
        r,
{
    let _ = space;
    let all = Orbit::all();
    let mut i: usize = 0;
    while i < 14
        invariant
            0 <= i <= 14,
            all@ == all_orbits(),
            forall|k: int| 0 <= k < i ==> self_dual_spec(#[trigger] all_orbits()[k]),
        decreases 14 - i,
    {
        let ok = orbit_self_duality(&all[i]);
        assert(ok);
        i += 1;
    }
    true
}

} // verus!

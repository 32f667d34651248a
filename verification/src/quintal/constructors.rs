//! Constructors that build voiced chords from an abstract `PcChord` and an octave.

use vstd::prelude::*;

use super::error::QuintalError;
use super::types::{
    distinct4, first_legal_from, fwd, lemma_first_legal_bounds, mod12_4, ordering_at, perm4, stacking_spec,
    strictly_ascending4, walk_structure, IntervalStructure, PcChord, VoicedChord,
};

verus! {

/// The pitches stacked from a bottom MIDI pitch `b` by the intervals `is`,
/// each reduced to a byte (a pitch beyond 255 wraps around).
pub open spec fn stack_pitches(b: int, is: IntervalStructure) -> [u8; 4] {
    [b as u8, (b + is.0) as u8, (b + is.0 + is.1) as u8, (b + is.0 + is.1 + is.2) as u8]
}

/// What [`quintal_root`] returns for a chord and an octave.
pub open spec fn quintal_root_spec(c: PcChord, base_octave: u8) -> Result<VoicedChord, QuintalError> {
    match stacking_spec(c.pcs) {
        None => Err(QuintalError::NoLegalStacking),
        Some((ordered, is)) => {
            let p = stack_pitches(12 * base_octave + ordered[0], is);
            if strictly_ascending4(p) {
                Ok(VoicedChord { pitches: p })
            } else {
                Err(QuintalError::NotAscending)
            }
        },
    }
}

/// Build the canonical quintal-root voicing of a pitch-class chord: the
/// bottom voice is MIDI pitch `12 * base_octave + bottom_pc`, where
/// `bottom_pc` opens the chord's legal quintal stacking, and the stacking's
/// intervals are laid upward from there.
///
/// Fails with `NoLegalStacking` if the chord has no legal quintal stacking,
/// and with `NotAscending` if the resulting pitches (each reduced to a byte)
/// are not strictly ascending, which only happens for extreme octaves.
pub fn quintal_root(pc_chord: &PcChord, base_octave: u8) -> (r: Result<VoicedChord, QuintalError>)
    requires
        pc_chord.in_range(),
    ensures
        r == quintal_root_spec(*pc_chord, base_octave),
{
    let (ordered, is) = match pc_chord.legal_quintal_stacking() {
        Some(s) => s,
        None => return Err(QuintalError::NoLegalStacking),
    };
    let bottom_midi: u16 = 12u16 * base_octave as u16 + ordered[0] as u16;
    let pitches: [u8; 4] = [
        bottom_midi as u8,
        (bottom_midi + is.0 as u16) as u8,
        (bottom_midi + is.0 as u16 + is.1 as u16) as u8,
        (bottom_midi + is.0 as u16 + is.1 as u16 + is.2 as u16) as u8,
    ];
    assert(pitches =~= stack_pitches(12 * base_octave + ordered[0], is));
    VoicedChord::new(pitches)
}

/// Adding the forward interval from `x` to `y` to a number congruent to `x`
/// lands on a number congruent to `y`, modulo 12.
pub proof fn lemma_fwd_lands(x: u8, y: u8, base: int)
    requires
        x <= 11,
        y <= 11,
        base % 12 == x,
        base >= 0,
    ensures
        (base + fwd(x, y)) % 12 == y,
{
    if y >= x {
        assert(fwd(x, y) == y - x);
    } else {
        assert(fwd(x, y) == y + 12 - x);
    }
}

/// Stacking the forward intervals of an ordering of distinct pitch classes
/// from a pitch of the class of its first entry walks through the ordering,
/// upward, within two octaves.
pub proof fn lemma_stack_walk(o: [u8; 4], b: int)
    requires
        o[0] <= 11 && o[1] <= 11 && o[2] <= 11 && o[3] <= 11,
        o[0] != o[1] && o[1] != o[2] && o[2] != o[3],
        walk_structure(o).0 <= 8 && walk_structure(o).1 <= 8 && walk_structure(o).2 <= 8,
        0 <= b <= 200,
        b % 12 == o[0],
    ensures
        mod12_4(stack_pitches(b, walk_structure(o))) == o,
        strictly_ascending4(stack_pitches(b, walk_structure(o))),
        stack_pitches(b, walk_structure(o))[0] == b,
        stack_pitches(b, walk_structure(o))[3] <= b + 24,
{
    let is = walk_structure(o);
    lemma_fwd_lands(o[0], o[1], b);
    lemma_fwd_lands(o[1], o[2], b + fwd(o[0], o[1]));
    lemma_fwd_lands(o[2], o[3], b + fwd(o[0], o[1]) + fwd(o[1], o[2]));
    assert(mod12_4(stack_pitches(b, is)) =~= o);
}

/// The legal ordering of a chord in the base space lists its four distinct
/// pitch classes, and its structure is legal.
pub proof fn lemma_stacking_facts(c: PcChord)
    requires
        c.wf(),
        c.legal(),
    ensures
        stacking_spec(c.pcs) is Some,
        ({
            let (o, is) = stacking_spec(c.pcs)->0;
            &&& is == walk_structure(o)
            &&& is.legal_spec()
            &&& distinct4(o)
            &&& o[0] <= 11 && o[1] <= 11 && o[2] <= 11 && o[3] <= 11
            &&& (o[0] == c.pcs[0] || o[0] == c.pcs[1] || o[0] == c.pcs[2] || o[0] == c.pcs[3])
            &&& (o[1] == c.pcs[0] || o[1] == c.pcs[1] || o[1] == c.pcs[2] || o[1] == c.pcs[3])
            &&& (o[2] == c.pcs[0] || o[2] == c.pcs[1] || o[2] == c.pcs[2] || o[2] == c.pcs[3])
            &&& (o[3] == c.pcs[0] || o[3] == c.pcs[1] || o[3] == c.pcs[2] || o[3] == c.pcs[3])
        }),
{
    lemma_first_legal_bounds(c.pcs, 0);
    let k = first_legal_from(c.pcs, 0)->0;
    lemma_perm4_facts(k);
}

/// The indices of a permutation of four are distinct and in range.
pub proof fn lemma_perm4_facts(k: int)
    requires
        0 <= k < 24,
    ensures
        0 <= perm4(k).0 < 4 && 0 <= perm4(k).1 < 4 && 0 <= perm4(k).2 < 4 && 0 <= perm4(k).3 < 4,
        perm4(k).0 != perm4(k).1 && perm4(k).0 != perm4(k).2 && perm4(k).0 != perm4(k).3,
        perm4(k).1 != perm4(k).2 && perm4(k).1 != perm4(k).3 && perm4(k).2 != perm4(k).3,
{
}

/// The quintal root of a base-space chord at octave 4 exists and lies
/// between MIDI 48 and 83, with distinct pitch classes.
pub proof fn lemma_quintal_root_octave4(c: PcChord)
    requires
        c.wf(),
        c.legal(),
    ensures
        quintal_root_spec(c, 4) is Ok,
        ({
            let p = quintal_root_spec(c, 4)->Ok_0.pitches;
            &&& strictly_ascending4(p)
            &&& distinct4(mod12_4(p))
            &&& 48 <= p[0] && p[3] <= 83
        }),
{
    lemma_stacking_facts(c);
    let (o, is) = stacking_spec(c.pcs)->0;
    lemma_stack_walk(o, 48 + o[0]);
    assert(12 * 4 + o[0] == 48 + o[0]);
}

} // verus!

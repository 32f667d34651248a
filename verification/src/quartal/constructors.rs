//! Quartal-native constructors for building chords from stacked fourths.

use vstd::prelude::*;

use super::conversion::{pc_chord_quartal_intervals, quartal_intervals_spec};
use super::error::{quartal_from_quintal, QuartalError};
use super::interval::{complement, quintal_to_quartal_structure, reverse_complement};
use super::types::{QuartalIntervalStructure, QuartalVoicedChord};
use crate::quintal::base_space::{base_space_wf, chord_in_base, BaseSpace};
use crate::quintal::distance::{chord_pos, lemma_found_index};
use crate::quintal::constructors::{lemma_stack_walk, lemma_stacking_facts, stack_pitches};
use crate::quintal::types::{
    distinct4, fwd, mod12_4, pc_chord_new_result, sorted4, stacking_spec, strictly_ascending4,
    walk_structure, IntervalStructure, PcChord, VoicedChord,
};
use super::voicing::above_36;
use crate::quintal::QuintalError;

verus! {

/// The first of three intervals outside {4, 5, 6}, if any.
pub open spec fn first_illegal(ivs: Seq<u8>) -> Option<u8> {
    if !(4 <= ivs[0] <= 6) {
        Some(ivs[0])
    } else if !(4 <= ivs[1] <= 6) {
        Some(ivs[1])
    } else if !(4 <= ivs[2] <= 6) {
        Some(ivs[2])
    } else {
        None
    }
}

/// A quintal construction result with its error translated to the quartal vocabulary.
pub open spec fn as_quartal_result(r: Result<PcChord, QuintalError>) -> Result<PcChord, QuartalError> {
    match r {
        Ok(c) => Ok(c),
        Err(e) => Err(quartal_from_quintal(e)),
    }
}

/// What [`from_stacked_fourths`] returns.
pub open spec fn fourths_spec(root_pc: u8, ivs: Seq<u8>) -> Result<PcChord, QuartalError> {
    if root_pc > 11 {
        Err(QuartalError::PitchClassOutOfRange(root_pc))
    } else if ivs.len() != 3 {
        Err(QuartalError::WrongIntervalCount(ivs.len() as usize))
    } else {
        match first_illegal(ivs) {
            Some(iv) => Err(QuartalError::IllegalInterval(iv)),
            None => as_quartal_result(
                pc_chord_new_result(
                    [
                        root_pc,
                        ((root_pc + ivs[0]) % 12) as u8,
                        ((root_pc + ivs[0] + ivs[1]) % 12) as u8,
                        ((root_pc + ivs[0] + ivs[1] + ivs[2]) % 12) as u8,
                    ],
                ),
            ),
        }
    }
}

/// Check that the slice holds three legal quartal intervals.
fn check_fourths(intervals: &[u8]) -> (r: Result<(), QuartalError>)
    ensures
        intervals@.len() != 3 ==> r == Err::<(), QuartalError>(
            QuartalError::WrongIntervalCount(intervals@.len() as usize),
        ),
        intervals@.len() == 3 ==> match first_illegal(intervals@) {
            Some(iv) => r == Err::<(), QuartalError>(QuartalError::IllegalInterval(iv)),
            None => r is Ok,
        },
{
    if intervals.len() != 3 {
        return Err(QuartalError::WrongIntervalCount(intervals.len()));
    }
    let mut i: usize = 0;
    while i < 3
        invariant
            0 <= i <= 3,
            intervals@.len() == 3,
            forall|j: int| 0 <= j < i ==> 4 <= #[trigger] intervals@[j] <= 6,
        decreases 3 - i,
    {
        let iv = intervals[i];
        if iv < 4 || iv > 6 {
            return Err(QuartalError::IllegalInterval(iv));
        }
        i = i + 1;
    }
    Ok(())
}

/// Build a [`PcChord`] by stacking three fourths (each in {4, 5, 6})
/// upward from a root pitch class.
pub fn from_stacked_fourths(root_pc: u8, intervals: &[u8]) -> (r: Result<PcChord, QuartalError>)
    ensures
        r == fourths_spec(root_pc, intervals@),
{
    if root_pc > 11 {
        return Err(QuartalError::PitchClassOutOfRange(root_pc));
    }
    match check_fourths(intervals) {
        Err(e) => return Err(e),
        Ok(()) => {},
    }
    let cumulative_1: u16 = root_pc as u16 + intervals[0] as u16;
    let cumulative_2: u16 = cumulative_1 + intervals[1] as u16;
    let cumulative_3: u16 = cumulative_2 + intervals[2] as u16;
    let pcs: [u8; 4] = [
        root_pc,
        (cumulative_1 % 12) as u8,
        (cumulative_2 % 12) as u8,
        (cumulative_3 % 12) as u8,
    ];
    match PcChord::new(pcs) {
        Ok(c) => Ok(c),
        Err(e) => Err(QuartalError::from(e)),
    }
}

/// What [`from_stacked_fourths_voiced`] returns.
pub open spec fn fourths_voiced_spec(root: u8, ivs: Seq<u8>) -> Result<QuartalVoicedChord, QuartalError> {
    if ivs.len() != 3 {
        Err(QuartalError::WrongIntervalCount(ivs.len() as usize))
    } else {
        match first_illegal(ivs) {
            Some(iv) => Err(QuartalError::IllegalInterval(iv)),
            None => Ok(
                QuartalVoicedChord(
                    VoicedChord {
                        pitches: [
                            root,
                            (root + ivs[0]) as u8,
                            (root + ivs[0] + ivs[1]) as u8,
                            (root + ivs[0] + ivs[1] + ivs[2]) as u8,
                        ],
                    },
                ),
            ),
        }
    }
}

/// Build a [`QuartalVoicedChord`] by stacking three fourths (each in
/// {4, 5, 6}) upward from a root MIDI pitch.
pub fn from_stacked_fourths_voiced(root_pitch: u8, intervals: &[u8]) -> (r: Result<QuartalVoicedChord, QuartalError>)
    requires
        intervals@.len() == 3 && first_illegal(intervals@) is None ==> root_pitch + intervals@[0]
            + intervals@[1] + intervals@[2] <= 255,
    ensures
        r == fourths_voiced_spec(root_pitch, intervals@),
{
    match check_fourths(intervals) {
        Err(e) => return Err(e),
        Ok(()) => {},
    }
    let pitches: [u8; 4] = [
        root_pitch,
        root_pitch + intervals[0],
        root_pitch + intervals[0] + intervals[1],
        root_pitch + intervals[0] + intervals[1] + intervals[2],
    ];
    QuartalVoicedChord::new(pitches)
}

/// The chord of three perfect fourths stacked on `root_pc`.
pub open spec fn stack_of_fourths(root_pc: u8) -> PcChord {
    PcChord {
        pcs: sorted4(
            [
                root_pc,
                ((root_pc + 5) % 12) as u8,
                ((root_pc + 10) % 12) as u8,
                ((root_pc + 15) % 12) as u8,
            ],
        ),
    }
}

/// Build the [`PcChord`] of three stacked perfect fourths (5, 5, 5) from a
/// root pitch class in 0..=11.
pub fn pure_quartal_stack(root_pc: u8) -> (r: PcChord)
    requires
        root_pc <= 11,
    ensures
        r == stack_of_fourths(root_pc),
{
    let ivs: [u8; 3] = [5, 5, 5];
    let r = from_stacked_fourths(root_pc, &ivs);
    assert(ivs@ =~= seq![5u8, 5, 5]);
    match r {
        Ok(c) => c,
        Err(_) => {
            proof {
                assert(false);
            }
            PcChord { pcs: [0, 0, 0, 0] }
        },
    }
}

/// The neighbors of a chord in the base space, in adjacency order, each
/// with its quartal interval structure; empty when the chord is not in the space.
pub open spec fn quartal_neighbors_spec(space: &BaseSpace, chord: PcChord) -> Seq<(PcChord, Option<QuartalIntervalStructure>)> {
    if space.chords_view().contains(chord) {
        space.adj_view()[chord_pos(space, chord)].map_values(
            |j: usize| (space.chords_view()[j as int], quartal_intervals_spec(space.chords_view()[j as int])),
        )
    } else {
        seq![]
    }
}

/// The neighbors of a chord in the base space, each paired with its quartal
/// interval structure; empty if the chord is not in the space.
pub fn quartal_neighbors(chord: &PcChord, space: &BaseSpace) -> (r: Vec<(PcChord, Option<QuartalIntervalStructure>)>)
    ensures
        r@ == quartal_neighbors_spec(space, *chord),
{
    let chords = space.chords();
    let mut result: Vec<(PcChord, Option<QuartalIntervalStructure>)> = Vec::new();
    match space.chord_index(chord) {
        Some(ci) => {
            proof {
                lemma_found_index(space, *chord, ci as int);
            }
            let row = space.neighbors_by_index(ci);
            let ghost spec_row = space.adj_view()[ci as int];
            let mut t: usize = 0;
            while t < row.len()
                invariant
                    0 <= t <= row@.len(),
                    row@ == spec_row,
                    chords@ == space.chords_view(),
                    base_space_wf(space.chords_view(), space.adj_view()),
                    spec_row == space.adj_view()[ci as int],
                    ci < space.chords_view().len(),
                    result@ == spec_row.map_values(
                        |j: usize| (chords@[j as int], quartal_intervals_spec(chords@[j as int])),
                    ).subrange(0, t as int),
                decreases row@.len() - t,
            {
                let idx = row[t];
                proof {
                    assert(super::super::quintal::base_space::is_neighbor_row(
                        space.chords_view(),
                        space.chords_view()[ci as int],
                        space.adj_view()[ci as int],
                    ));
                    assert(chord_in_base(chords@[idx as int]));
                }
                let neighbor = chords[idx];
                let qis = pc_chord_quartal_intervals(&neighbor);
                result.push((neighbor, qis));
                proof {
                    let m = spec_row.map_values(
                        |j: usize| (chords@[j as int], quartal_intervals_spec(chords@[j as int])),
                    );
                    assert(m.subrange(0, t + 1) =~= m.subrange(0, t as int).push(m[t as int]));
                }
                t = t + 1;
            }
            proof {
                let m = spec_row.map_values(
                    |j: usize| (chords@[j as int], quartal_intervals_spec(chords@[j as int])),
                );
                assert(m.subrange(0, row@.len() as int) =~= m);
            }
        },
        None => {},
    }
    result
}

/// The pitches of the quartal root voicing of a chord: its legal quintal
/// ordering read backwards, stacked by the quartal intervals from MIDI
/// `12 * base_octave` plus the last pitch class of that ordering, each
/// reduced to a byte.
pub open spec fn quartal_root_pitches(ordered: [u8; 4], is: crate::quintal::types::IntervalStructure, base_octave: u8) -> [u8; 4] {
    let q = reverse_complement(is);
    let b = 12 * base_octave + ordered[3];
    [b as u8, (b + q.0) as u8, (b + q.0 + q.1) as u8, (b + q.0 + q.1 + q.2) as u8]
}

/// What [`quartal_root`] returns for a chord and an octave.
pub open spec fn quartal_root_spec(c: PcChord, base_octave: u8) -> Result<QuartalVoicedChord, QuartalError> {
    match stacking_spec(c.pcs) {
        None => Err(QuartalError::NoLegalStacking),
        Some((ordered, is)) => {
            let p = quartal_root_pitches(ordered, is, base_octave);
            if strictly_ascending4(p) {
                Ok(QuartalVoicedChord(VoicedChord { pitches: p }))
            } else {
                Err(QuartalError::NotAscending)
            }
        },
    }
}

/// Build the canonical quartal-root voicing of a pitch-class chord: the
/// chord's legal quintal ordering read top-down is a stack of fourths; its
/// bottom voice is MIDI pitch `12 * base_octave` plus the last pitch class
/// of that ordering, and the quartal intervals are laid upward from there.
///
/// Fails with `NoLegalStacking` if the chord has no legal stacking, and with
/// `NotAscending` if the pitches (each reduced to a byte) are not strictly
/// ascending, which only happens for extreme octaves.
pub fn quartal_root(pc_chord: &PcChord, base_octave: u8) -> (r: Result<QuartalVoicedChord, QuartalError>)
    requires
        pc_chord.in_range(),
    ensures
        r == quartal_root_spec(*pc_chord, base_octave),
{
    let (ordered, is) = match pc_chord.legal_quintal_stacking() {
        Some(s) => s,
        None => return Err(QuartalError::NoLegalStacking),
    };
    proof {
        crate::quintal::types::lemma_first_legal_bounds(pc_chord.pcs, 0);
    }
    let q = quintal_to_quartal_structure(&is);
    let bottom_midi: u16 = 12u16 * base_octave as u16 + ordered[3] as u16;
    let pitches: [u8; 4] = [
        bottom_midi as u8,
        (bottom_midi + q.0 as u16) as u8,
        (bottom_midi + q.0 as u16 + q.1 as u16) as u8,
        (bottom_midi + q.0 as u16 + q.1 as u16 + q.2 as u16) as u8,
    ];
    assert(pitches =~= quartal_root_pitches(ordered, is, base_octave));
    QuartalVoicedChord::new(pitches)
}

/// The forward interval back from `y` to `x` complements the one from `x` to `y`.
proof fn lemma_fwd_complement(x: u8, y: u8)
    requires
        x <= 11,
        y <= 11,
        x != y,
    ensures
        complement(fwd(x, y) as u8) == fwd(y, x),
{
    if y > x {
        assert(fwd(x, y) == y - x);
        assert(fwd(y, x) == x + 12 - y);
        assert(complement((y - x) as u8) == 12 - (y - x));
    } else {
        assert(fwd(x, y) == y + 12 - x);
        assert(fwd(y, x) == x - y);
        assert(complement((y + 12 - x) as u8) == x - y);
    }
}

/// The quartal root pitches of an ordering stack the forward intervals of
/// the reversed ordering from its first pitch class.
proof fn lemma_quartal_pitches_walk(o: [u8; 4])
    requires
        o[0] <= 11 && o[1] <= 11 && o[2] <= 11 && o[3] <= 11,
        distinct4(o),
        walk_structure(o).legal_spec(),
    ensures
        quartal_root_pitches(o, walk_structure(o), 4) == stack_pitches(
            48 + o[3],
            walk_structure([o[3], o[2], o[1], o[0]]),
        ),
        4 <= walk_structure([o[3], o[2], o[1], o[0]]).0 <= 6,
        4 <= walk_structure([o[3], o[2], o[1], o[0]]).1 <= 6,
        4 <= walk_structure([o[3], o[2], o[1], o[0]]).2 <= 6,
{
    lemma_fwd_complement(o[2], o[3]);
    lemma_fwd_complement(o[1], o[2]);
    lemma_fwd_complement(o[0], o[1]);
    let r: [u8; 4] = [o[3], o[2], o[1], o[0]];
    assert(quartal_root_pitches(o, walk_structure(o), 4) =~= stack_pitches(48 + o[3], walk_structure(r)));
}

/// The quartal root of a base-space chord at octave 4 exists, starts at or
/// above MIDI 48 and has distinct pitch classes.
#[verifier::spinoff_prover]
#[verifier::rlimit(40)]
pub proof fn lemma_quartal_root_octave4(c: PcChord)
    requires
        c.wf(),
        c.legal(),
    ensures
        quartal_root_spec(c, 4) is Ok,
        ({
            let p = quartal_root_spec(c, 4)->Ok_0.0.pitches;
            &&& strictly_ascending4(p)
            &&& distinct4(mod12_4(p))
            &&& above_36(p)
        }),
{
    lemma_stacking_facts(c);
    let (o, is) = stacking_spec(c.pcs)->0;
    let r: [u8; 4] = [o[3], o[2], o[1], o[0]];
    lemma_quartal_pitches_walk(o);
    lemma_stack_walk(r, 48 + o[3]);
    let p = stack_pitches(48 + o[3], walk_structure(r));
    assert(quartal_root_pitches(o, is, 4) == p);
    assert(mod12_4(p) == r);
    assert(distinct4(r));
}

} // verus!

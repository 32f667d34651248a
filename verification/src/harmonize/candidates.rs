//! Candidate voiced chords for a melody note: every base-space chord that
//! contains the note's pitch class, voiced so that the note's pitch is on top.

use vstd::prelude::*;

use super::types::{DualityScope, HarmonizeError};
use crate::quartal::constructors::{lemma_quartal_root_octave4, quartal_root, quartal_root_spec};
use crate::quartal::voicing::{quartal_cycle_spec, quartal_inversion_cycle};
use crate::quintal::base_space::{base_space_wf, chord_in_base, has_pc, BaseSpace};
use crate::quintal::constructors::{lemma_quintal_root_octave4, quintal_root, quintal_root_spec};
use crate::quintal::fiber::{inversion_cycle, inversion_cycle_spec};
use crate::quintal::types::{PcChord, VoicedChord};
use crate::quintal::verification::lemma_cycle_fits;

verus! {

/// What shifting `c` so that its top voice is `target` yields: every voice
/// moves by `target - top`, each reduced to a byte; an error when the bottom
/// voice would fall below 0.
pub open spec fn shift_spec(c: VoicedChord, target: u8, position: usize) -> Result<VoicedChord, HarmonizeError> {
    let delta = target - c.pitches[3];
    if c.pitches[0] + delta < 0 {
        Err(HarmonizeError::TargetMidiOutOfRange { position, target_midi: target as i16 })
    } else {
        Ok(
            VoicedChord {
                pitches: [
                    (c.pitches[0] + delta) as u8,
                    (c.pitches[1] + delta) as u8,
                    (c.pitches[2] + delta) as u8,
                    (c.pitches[3] + delta) as u8,
                ],
            },
        )
    }
}

/// Shift a voiced chord vertically so that its top voice is `target_midi`:
/// every voice moves by the same number of semitones (each result reduced
/// to a byte). Fails when the bottom voice would fall below MIDI 0.
pub fn shift_to_top(chord: &VoicedChord, target_midi: u8, position: usize) -> (r: Result<VoicedChord, HarmonizeError>)
    ensures
        r == shift_spec(*chord, target_midi, position),
{
    let delta: i32 = target_midi as i32 - chord.pitches[3] as i32;
    let bottom_after: i32 = chord.pitches[0] as i32 + delta;
    if bottom_after < 0 {
        return Err(HarmonizeError::TargetMidiOutOfRange { position, target_midi: target_midi as i16 });
    }
    #[verifier::truncate]
    let p0 = (chord.pitches[0] as i32 + delta) as u8;
    #[verifier::truncate]
    let p1 = (chord.pitches[1] as i32 + delta) as u8;
    #[verifier::truncate]
    let p2 = (chord.pitches[2] as i32 + delta) as u8;
    #[verifier::truncate]
    let p3 = (chord.pitches[3] as i32 + delta) as u8;
    Ok(VoicedChord { pitches: [p0, p1, p2, p3] })
}

/// The first voicing, from the `i`-th on, of a four-voicing cycle whose top
/// voice has pitch class `pc`.
pub open spec fn first_with_top(cycle: [[u8; 4]; 4], pc: u8, i: int) -> Option<[u8; 4]>
    decreases 4 - i,
{
    if i < 0 || i >= 4 {
        None
    } else if cycle[i][3] % 12 == pc {
        Some(cycle[i])
    } else {
        first_with_top(cycle, pc, i + 1)
    }
}

/// The candidate drawn from one cycle: its first voicing with the target's
/// pitch class on top, shifted to the target (none when no voicing has it).
pub open spec fn cycle_candidate(cycle: [[u8; 4]; 4], target: u8, position: usize) -> Result<Seq<VoicedChord>, HarmonizeError> {
    match first_with_top(cycle, (target % 12) as u8, 0) {
        Some(p) => match shift_spec(VoicedChord { pitches: p }, target, position) {
            Ok(v) => Ok(seq![v]),
            Err(e) => Err(e),
        },
        None => Ok(seq![]),
    }
}

/// The quintal inversion cycle of a chord's quintal root at octave 4.
#[verifier::opaque]
pub open spec fn quintal_cycle_of(c: PcChord) -> [[u8; 4]; 4] {
    inversion_cycle_spec(quintal_root_spec(c, 4)->Ok_0.pitches)
}

/// The quartal inversion cycle of a chord's quartal root at octave 4.
#[verifier::opaque]
pub open spec fn quartal_cycle_of(c: PcChord) -> [[u8; 4]; 4] {
    quartal_cycle_spec(quartal_root_spec(c, 4)->Ok_0.0.pitches)
}

/// The scope includes quintal voicings.
pub open spec fn uses_quintal(d: DualityScope) -> bool {
    d == DualityScope::QuintalOnly || d == DualityScope::Both
}

/// The scope includes quartal voicings.
pub open spec fn uses_quartal(d: DualityScope) -> bool {
    d == DualityScope::QuartalOnly || d == DualityScope::Both
}

/// The candidates one chord contributes: nothing unless it contains the
/// target's pitch class; otherwise its quintal candidate, then its quartal
/// one, as the scope allows; or the first error met.
pub open spec fn chord_candidates(c: PcChord, target: u8, d: DualityScope, position: usize) -> Result<Seq<VoicedChord>, HarmonizeError> {
    if !has_pc(c, (target % 12) as u8) {
        Ok(seq![])
    } else {
        let a = if uses_quintal(d) {
            cycle_candidate(quintal_cycle_of(c), target, position)
        } else {
            Ok(seq![])
        };
        match a {
            Err(e) => Err(e),
            Ok(x) => {
                let b = if uses_quartal(d) {
                    cycle_candidate(quartal_cycle_of(c), target, position)
                } else {
                    Ok(seq![])
                };
                match b {
                    Err(e) => Err(e),
                    Ok(y) => Ok(x + y),
                }
            },
        }
    }
}

/// The candidates of the first `n` chords, in order, or the first error.
pub open spec fn candidates_upto(chords: Seq<PcChord>, target: u8, d: DualityScope, position: usize, n: int) -> Result<Seq<VoicedChord>, HarmonizeError>
    decreases n,
{
    if n <= 0 {
        Ok(seq![])
    } else {
        match candidates_upto(chords, target, d, position, n - 1) {
            Err(e) => Err(e),
            Ok(prev) => match chord_candidates(chords[n - 1], target, d, position) {
                Err(e) => Err(e),
                Ok(x) => Ok(prev + x),
            },
        }
    }
}

/// A computed list of candidates, or error, agrees with the expected one.
pub open spec fn same_candidates(r: Result<Vec<VoicedChord>, HarmonizeError>, e: Result<Seq<VoicedChord>, HarmonizeError>) -> bool {
    match (r, e) {
        (Ok(v), Ok(s)) => v@ == s,
        (Err(a), Err(b)) => a == b,
        _ => false,
    }
}

/// An error among the first `m` chords is the error of any longer prefix.
proof fn lemma_candidates_err(chords: Seq<PcChord>, target: u8, d: DualityScope, position: usize, m: int, n: int)
    requires
        0 <= m <= n,
        candidates_upto(chords, target, d, position, m) is Err,
    ensures
        candidates_upto(chords, target, d, position, n) == candidates_upto(chords, target, d, position, m),
    decreases n - m,
{
    if m < n {
        lemma_candidates_err(chords, target, d, position, m, n - 1);
    }
}

/// The candidate of a four-voicing cycle.
fn pick_from_cycle(cycle: &[VoicedChord; 4], target: u8, position: usize) -> (r: Result<Vec<VoicedChord>, HarmonizeError>)
    ensures
        same_candidates(
            r,
            cycle_candidate(
                [cycle[0].pitches, cycle[1].pitches, cycle[2].pitches, cycle[3].pitches],
                target,
                position,
            ),
        ),
{
    let ghost cy = [cycle[0].pitches, cycle[1].pitches, cycle[2].pitches, cycle[3].pitches];
    let target_pc = target % 12;
    let mut out: Vec<VoicedChord> = Vec::new();
    let mut i: usize = 0;
    while i < 4
        invariant
            0 <= i <= 4,
            target_pc == target % 12,
            cy == [cycle[0].pitches, cycle[1].pitches, cycle[2].pitches, cycle[3].pitches],
            first_with_top(cy, target_pc, 0) == first_with_top(cy, target_pc, i as int),
            out@.len() == 0,
        decreases 4 - i,
    {
        let inv = cycle[i];
        proof {
            assert(cy[i as int] == inv.pitches);
            assert(inv == (VoicedChord { pitches: cy[i as int] }));
        }
        if inv.pitches[3] % 12 == target_pc {
            proof {
                assert(first_with_top(cy, target_pc, i as int) == Some(cy[i as int]));
            }
            match shift_to_top(&inv, target, position) {
                Ok(v) => {
                    out.push(v);
                    proof {
                        assert(out@ =~= seq![v]);
                        assert(cycle_candidate(cy, target, position) == Ok::<Seq<VoicedChord>, HarmonizeError>(seq![v]));
                    }
                    return Ok(out);
                },
                Err(e) => {
                    return Err(e);
                },
            }
        }
        i = i + 1;
    }
    assert(out@ =~= seq![]);
    Ok(out)
}

/// The candidates one base-space chord contributes.
fn chord_candidates_exec(pc_chord: &PcChord, target_top_midi: u8, duality: DualityScope, position: usize) -> (r: Result<Vec<VoicedChord>, HarmonizeError>)
    requires
        chord_in_base(*pc_chord),
    ensures
        same_candidates(r, chord_candidates(*pc_chord, target_top_midi, duality, position)),
{
    let target_pc = target_top_midi % 12;
    let contains = pc_chord.pcs[0] == target_pc || pc_chord.pcs[1] == target_pc || pc_chord.pcs[2]
        == target_pc || pc_chord.pcs[3] == target_pc;
    let mut added: Vec<VoicedChord> = Vec::new();
    if !contains {
        assert(added@ =~= seq![]);
        return Ok(added);
    }
    if duality == DualityScope::QuintalOnly || duality == DualityScope::Both {
        proof {
            lemma_quintal_root_octave4(*pc_chord);
            lemma_cycle_fits(quintal_root_spec(*pc_chord, 4)->Ok_0.pitches);
        }
        let q_root = match quintal_root(pc_chord, 4) {
            Ok(v) => v,
            Err(_) => {
                proof {
                    assert(false);
                }
                return Ok(added);
            },
        };
        let cycle = inversion_cycle(&q_root);
        proof {
            reveal(quintal_cycle_of);
            assert([cycle[0].pitches, cycle[1].pitches, cycle[2].pitches, cycle[3].pitches]
                =~= quintal_cycle_of(*pc_chord));
        }
        match pick_from_cycle(&cycle, target_top_midi, position) {
            Ok(mut v) => {
                added.append(&mut v);
            },
            Err(e) => {
                return Err(e);
            },
        }
    } else {
        assert(added@ =~= seq![]);
    }
    let ghost after_quintal = added@;
    if duality == DualityScope::QuartalOnly || duality == DualityScope::Both {
        proof {
            lemma_quartal_root_octave4(*pc_chord);
        }
        let qv_root = match quartal_root(pc_chord, 4) {
            Ok(v) => v,
            Err(_) => {
                proof {
                    assert(false);
                }
                return Ok(added);
            },
        };
        let qcycle = quartal_inversion_cycle(&qv_root);
        let cycle: [VoicedChord; 4] = [
            *qcycle[0].as_voiced(),
            *qcycle[1].as_voiced(),
            *qcycle[2].as_voiced(),
            *qcycle[3].as_voiced(),
        ];
        proof {
            reveal(quartal_cycle_of);
            assert([cycle[0].pitches, cycle[1].pitches, cycle[2].pitches, cycle[3].pitches]
                =~= quartal_cycle_of(*pc_chord));
        }
        match pick_from_cycle(&cycle, target_top_midi, position) {
            Ok(mut v) => {
                let ghost vv = v@;
                added.append(&mut v);
                proof {
                    assert(added@ =~= after_quintal + vv);
                }
            },
            Err(e) => {
                return Err(e);
            },
        }
    } else {
        assert(added@ =~= after_quintal + seq![]);
    }
    Ok(added)
}

/// All candidate voiced chords for a target top MIDI pitch: for each chord
/// of the space that contains the target's pitch class, in order, the
/// inversion of its octave-4 quintal root (and then of its quartal root) with
/// that pitch class on top, shifted so that its top voice is the target, as
/// the scope allows. Fails with the first shift that would push a voice below 0.
pub fn candidates_for_top(target_top_midi: u8, duality: DualityScope, space: &BaseSpace, position: usize) -> (r: Result<Vec<VoicedChord>, HarmonizeError>)
    ensures
        same_candidates(
            r,
            candidates_upto(space.chords_view(), target_top_midi, duality, position, space.chords_view().len() as int),
        ),
{
    let chords = space.chords();
    let n = chords.len();
    assert(forall|k: int| 0 <= k < n ==> chord_in_base(#[trigger] chords@[k]));
    let mut candidates: Vec<VoicedChord> = Vec::new();
    let mut i: usize = 0;
    while i < n
        invariant
            0 <= i <= n,
            n == chords@.len(),
            chords@ == space.chords_view(),
            forall|k: int| 0 <= k < n ==> chord_in_base(#[trigger] chords@[k]),
            candidates_upto(chords@, target_top_midi, duality, position, i as int) == Ok::<Seq<VoicedChord>, HarmonizeError>(candidates@),
        decreases n - i,
    {
        match chord_candidates_exec(&chords[i], target_top_midi, duality, position) {
            Ok(mut added) => {
                let ghost before = candidates@;
                let ghost a = added@;
                candidates.append(&mut added);
                proof {
                    assert(candidates@ =~= before + a);
                }
            },
            Err(e) => {
                proof {
                    lemma_candidates_err(chords@, target_top_midi, duality, position, i + 1, n as int);
                }
                return Err(e);
            },
        }
        i = i + 1;
    }
    Ok(candidates)
}

/// The only failure of a cycle's candidate is the shift below MIDI 0, for
/// the target and position at hand.
proof fn lemma_cycle_candidate_err(cycle: [[u8; 4]; 4], target: u8, position: usize)
    ensures
        cycle_candidate(cycle, target, position) is Err ==> cycle_candidate(cycle, target, position)
            == Err::<Seq<VoicedChord>, HarmonizeError>(
            HarmonizeError::TargetMidiOutOfRange { position, target_midi: target as i16 },
        ),
{
}

/// With both scopes, a chord that contains the target's pitch class
/// contributes its quintal-only candidates followed by its quartal-only
/// candidates; it fails exactly when one of the two fails, with the shift
/// error of the target and position.
pub proof fn lemma_chord_candidates_both(c: PcChord, target: u8, position: usize)
    ensures
        match (
            chord_candidates(c, target, DualityScope::QuintalOnly, position),
            chord_candidates(c, target, DualityScope::QuartalOnly, position),
        ) {
            (Ok(x), Ok(y)) => chord_candidates(c, target, DualityScope::Both, position)
                == Ok::<Seq<VoicedChord>, HarmonizeError>(x + y),
            _ => chord_candidates(c, target, DualityScope::Both, position)
                == Err::<Seq<VoicedChord>, HarmonizeError>(
                HarmonizeError::TargetMidiOutOfRange { position, target_midi: target as i16 },
            ),
        },
{
    lemma_cycle_candidate_err(quintal_cycle_of(c), target, position);
    lemma_cycle_candidate_err(quartal_cycle_of(c), target, position);
    if has_pc(c, (target % 12) as u8) {
        match cycle_candidate(quintal_cycle_of(c), target, position) {
            Ok(x) => {
                assert(chord_candidates(c, target, DualityScope::QuintalOnly, position)
                    == Ok::<Seq<VoicedChord>, HarmonizeError>(x + seq![]));
                assert(x + seq![] =~= x);
                match cycle_candidate(quartal_cycle_of(c), target, position) {
                    Ok(y) => {
                        assert(seq![] + y =~= y);
                    },
                    Err(e) => {},
                }
            },
            Err(e) => {},
        }
    } else {
        assert(seq![] + Seq::<VoicedChord>::empty() =~= Seq::<VoicedChord>::empty());
    }
}

/// One chord appended to a candidate list (or its error).
spec fn then_chord(prev: Result<Seq<VoicedChord>, HarmonizeError>, x: Result<Seq<VoicedChord>, HarmonizeError>) -> Result<Seq<VoicedChord>, HarmonizeError> {
    match prev {
        Err(e) => Err(e),
        Ok(p) => match x {
            Err(e) => Err(e),
            Ok(x) => Ok(p + x),
        },
    }
}

/// `b` holds the candidates of `q` and `r` together, or fails with `err`
/// when one of them fails.
spec fn union_of(q: Result<Seq<VoicedChord>, HarmonizeError>, r: Result<Seq<VoicedChord>, HarmonizeError>, b: Result<Seq<VoicedChord>, HarmonizeError>, err: HarmonizeError) -> bool {
    match (q, r) {
        (Ok(xs), Ok(ys)) => match b {
            Ok(zs) => zs.len() == xs.len() + ys.len() && zs.to_multiset() == xs.to_multiset().add(ys.to_multiset()),
            Err(_) => false,
        },
        _ => b == Err::<Seq<VoicedChord>, HarmonizeError>(err),
    }
}

/// Appending one chord keeps the union relation.
proof fn lemma_union_step(
    q: Result<Seq<VoicedChord>, HarmonizeError>,
    r: Result<Seq<VoicedChord>, HarmonizeError>,
    b: Result<Seq<VoicedChord>, HarmonizeError>,
    cq: Result<Seq<VoicedChord>, HarmonizeError>,
    cr: Result<Seq<VoicedChord>, HarmonizeError>,
    cb: Result<Seq<VoicedChord>, HarmonizeError>,
    err: HarmonizeError,
)
    requires
        union_of(q, r, b, err),
        q is Err ==> q == Err::<Seq<VoicedChord>, HarmonizeError>(err),
        r is Err ==> r == Err::<Seq<VoicedChord>, HarmonizeError>(err),
        cq is Err ==> cq == Err::<Seq<VoicedChord>, HarmonizeError>(err),
        cr is Err ==> cr == Err::<Seq<VoicedChord>, HarmonizeError>(err),
        match (cq, cr) {
            (Ok(x), Ok(y)) => cb == Ok::<Seq<VoicedChord>, HarmonizeError>(x + y),
            _ => cb == Err::<Seq<VoicedChord>, HarmonizeError>(err),
        },
    ensures
        union_of(then_chord(q, cq), then_chord(r, cr), then_chord(b, cb), err),
{
    if q is Ok && r is Ok && cq is Ok && cr is Ok {
        let xs = q->Ok_0;
        let ys = r->Ok_0;
        let zs = b->Ok_0;
        let x = cq->Ok_0;
        let y = cr->Ok_0;
        vstd::seq_lib::lemma_multiset_commutative(xs, x);
        vstd::seq_lib::lemma_multiset_commutative(ys, y);
        vstd::seq_lib::lemma_multiset_commutative(zs, x + y);
        vstd::seq_lib::lemma_multiset_commutative(x, y);
        assert((zs + (x + y)).to_multiset() =~= (xs + x).to_multiset().add((ys + y).to_multiset()));
    }
}

/// The candidate layer under both scopes holds exactly the candidates of the
/// quintal-only and the quartal-only layers together (as a multiset of
/// voicings), and fails exactly when one of the two fails, with the shift
/// error of the target and position.
pub proof fn lemma_candidates_both_union(chords: Seq<PcChord>, target: u8, position: usize, n: int)
    requires
        0 <= n <= chords.len(),
    ensures
        match (
            candidates_upto(chords, target, DualityScope::QuintalOnly, position, n),
            candidates_upto(chords, target, DualityScope::QuartalOnly, position, n),
        ) {
            (Ok(xs), Ok(ys)) => match candidates_upto(chords, target, DualityScope::Both, position, n) {
                Ok(zs) => zs.len() == xs.len() + ys.len() && zs.to_multiset() == xs.to_multiset().add(ys.to_multiset()),
                Err(_) => false,
            },
            _ => candidates_upto(chords, target, DualityScope::Both, position, n)
                == Err::<Seq<VoicedChord>, HarmonizeError>(
                HarmonizeError::TargetMidiOutOfRange { position, target_midi: target as i16 },
            ),
        },
    decreases n,
{
    let err = HarmonizeError::TargetMidiOutOfRange { position, target_midi: target as i16 };
    let q = candidates_upto(chords, target, DualityScope::QuintalOnly, position, n);
    let r = candidates_upto(chords, target, DualityScope::QuartalOnly, position, n);
    let b = candidates_upto(chords, target, DualityScope::Both, position, n);
    if n > 0 {
        lemma_candidates_both_union(chords, target, position, n - 1);
        lemma_chord_candidates_both(chords[n - 1], target, position);
        lemma_candidates_upto_err(chords, target, DualityScope::QuintalOnly, position, n - 1);
        lemma_candidates_upto_err(chords, target, DualityScope::QuartalOnly, position, n - 1);
        let c = chords[n - 1];
        lemma_chord_candidates_err(c, target, DualityScope::QuintalOnly, position);
        lemma_chord_candidates_err(c, target, DualityScope::QuartalOnly, position);
        let q0 = candidates_upto(chords, target, DualityScope::QuintalOnly, position, n - 1);
        let r0 = candidates_upto(chords, target, DualityScope::QuartalOnly, position, n - 1);
        let b0 = candidates_upto(chords, target, DualityScope::Both, position, n - 1);
        assert(q == then_chord(q0, chord_candidates(c, target, DualityScope::QuintalOnly, position)));
        assert(r == then_chord(r0, chord_candidates(c, target, DualityScope::QuartalOnly, position)));
        assert(b == then_chord(b0, chord_candidates(c, target, DualityScope::Both, position)));
        assert(union_of(q0, r0, b0, err));
        lemma_union_step(
            q0,
            r0,
            b0,
            chord_candidates(c, target, DualityScope::QuintalOnly, position),
            chord_candidates(c, target, DualityScope::QuartalOnly, position),
            chord_candidates(c, target, DualityScope::Both, position),
            err,
        );
        assert(union_of(q, r, b, err));
    } else {
        let e = Seq::<VoicedChord>::empty();
        vstd::seq_lib::lemma_multiset_commutative(e, e);
        assert(e + e =~= e);
        assert(union_of(q, r, b, err));
    }
}

/// A chord's candidates fail only with the shift error of the target and
/// position.
proof fn lemma_chord_candidates_err(c: PcChord, target: u8, d: DualityScope, position: usize)
    ensures
        chord_candidates(c, target, d, position) is Err ==> chord_candidates(c, target, d, position)
            == Err::<Seq<VoicedChord>, HarmonizeError>(
            HarmonizeError::TargetMidiOutOfRange { position, target_midi: target as i16 },
        ),
{
    lemma_cycle_candidate_err(quintal_cycle_of(c), target, position);
    lemma_cycle_candidate_err(quartal_cycle_of(c), target, position);
}

/// A failed candidate list fails with the shift error of the target and
/// position.
proof fn lemma_candidates_upto_err(chords: Seq<PcChord>, target: u8, d: DualityScope, position: usize, n: int)
    ensures
        candidates_upto(chords, target, d, position, n) is Err ==> candidates_upto(chords, target, d, position, n)
            == Err::<Seq<VoicedChord>, HarmonizeError>(
            HarmonizeError::TargetMidiOutOfRange { position, target_midi: target as i16 },
        ),
    decreases n,
{
    if n > 0 {
        lemma_candidates_upto_err(chords, target, d, position, n - 1);
        lemma_chord_candidates_err(chords[n - 1], target, d, position);
    }
}

} // verus!

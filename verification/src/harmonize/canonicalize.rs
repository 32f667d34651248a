//! Turning a melody into the MIDI pitches of the chords' top voices.

use vstd::prelude::*;

use super::types::{HarmonizeError, HarmonizeOptions, MelodyInput};

verus! {

/// The top-voice pitch for a melody pitch class.
pub open spec fn pc_target(pc: u8, o: HarmonizeOptions) -> int {
    12 * (o.melody_octave + 1) + pc + o.top_voice_offset
}

/// The top-voice pitches of the first `n` melody pitch classes, or the
/// first error among them.
pub open spec fn canon_pcs(pcs: Seq<u8>, o: HarmonizeOptions, n: int) -> Result<Seq<u8>, HarmonizeError>
    decreases n,
{
    if n <= 0 {
        Ok(seq![])
    } else {
        match canon_pcs(pcs, o, n - 1) {
            Err(e) => Err(e),
            Ok(prev) => {
                let pc = pcs[n - 1];
                if pc > 11 {
                    Err(HarmonizeError::InvalidPitchClass(pc))
                } else if 0 <= pc_target(pc, o) <= 127 {
                    Ok(prev.push(pc_target(pc, o) as u8))
                } else {
                    Err(
                        HarmonizeError::TargetMidiOutOfRange {
                            position: (n - 1) as usize,
                            target_midi: pc_target(pc, o) as i16,
                        },
                    )
                }
            },
        }
    }
}

/// The top-voice pitches of the first `n` melody pitches, or the first error among them.
pub open spec fn canon_pitches(ps: Seq<u8>, o: HarmonizeOptions, n: int) -> Result<Seq<u8>, HarmonizeError>
    decreases n,
{
    if n <= 0 {
        Ok(seq![])
    } else {
        match canon_pitches(ps, o, n - 1) {
            Err(e) => Err(e),
            Ok(prev) => {
                let t = ps[n - 1] + o.top_voice_offset;
                if 0 <= t <= 127 {
                    Ok(prev.push(t as u8))
                } else {
                    Err(
                        HarmonizeError::TargetMidiOutOfRange {
                            position: (n - 1) as usize,
                            target_midi: t as i16,
                        },
                    )
                }
            },
        }
    }
}

/// The top-voice pitches of a melody, or the error that stops it.
pub open spec fn canonicalize_spec(m: MelodyInput, o: HarmonizeOptions) -> Result<Seq<u8>, HarmonizeError> {
    match m {
        MelodyInput::PitchClasses(pcs) => if pcs@.len() == 0 {
            Err(HarmonizeError::EmptyMelody)
        } else {
            canon_pcs(pcs@, o, pcs@.len() as int)
        },
        MelodyInput::Pitches(ps) => if ps@.len() == 0 {
            Err(HarmonizeError::EmptyMelody)
        } else {
            canon_pitches(ps@, o, ps@.len() as int)
        },
    }
}

/// An error among the first `m` pitch classes is the error of any longer prefix.
proof fn lemma_canon_pcs_err(pcs: Seq<u8>, o: HarmonizeOptions, m: int, n: int)
    requires
        0 <= m <= n,
        canon_pcs(pcs, o, m) is Err,
    ensures
        canon_pcs(pcs, o, n) == canon_pcs(pcs, o, m),
    decreases n - m,
{
    if m < n {
        lemma_canon_pcs_err(pcs, o, m, n - 1);
    }
}

/// An error among the first `m` pitches is the error of any longer prefix.
proof fn lemma_canon_pitches_err(ps: Seq<u8>, o: HarmonizeOptions, m: int, n: int)
    requires
        0 <= m <= n,
        canon_pitches(ps, o, m) is Err,
    ensures
        canon_pitches(ps, o, n) == canon_pitches(ps, o, m),
    decreases n - m,
{
    if m < n {
        lemma_canon_pitches_err(ps, o, m, n - 1);
    }
}

/// A computed list of pitches, or error, agrees with the expected one.
pub open spec fn same_result(r: Result<Vec<u8>, HarmonizeError>, e: Result<Seq<u8>, HarmonizeError>) -> bool {
    match (r, e) {
        (Ok(v), Ok(s)) => v@ == s,
        (Err(a), Err(b)) => a == b,
        _ => false,
    }
}

/// Convert a melody to target top-voice MIDI pitches: each pitch class `pc`
/// becomes `12 * (melody_octave + 1) + pc + top_voice_offset`, each pitch
/// `p` becomes `p + top_voice_offset`. Fails on an empty melody, on the
/// first pitch class above 11, and on the first target outside `0..=127`.
pub fn canonicalize_melody(melody: &MelodyInput, options: &HarmonizeOptions) -> (r: Result<Vec<u8>, HarmonizeError>)
    ensures
        same_result(r, canonicalize_spec(*melody, *options)),
{
    match melody {
        MelodyInput::PitchClasses(pcs) => {
            if pcs.len() == 0 {
                return Err(HarmonizeError::EmptyMelody);
            }
            let mut out: Vec<u8> = Vec::new();
            let mut position: usize = 0;
            while position < pcs.len()
                invariant
                    0 <= position <= pcs@.len(),
                    *melody == MelodyInput::PitchClasses(*pcs),
                    pcs@.len() > 0,
                    canon_pcs(pcs@, *options, position as int) == Ok::<Seq<u8>, HarmonizeError>(out@),
                decreases pcs@.len() - position,
            {
                let pc = pcs[position];
                if pc > 11 {
                    proof {
                        assert(canon_pcs(pcs@, *options, position + 1) == Err::<Seq<u8>, HarmonizeError>(HarmonizeError::InvalidPitchClass(pc)));
                        lemma_canon_pcs_err(pcs@, *options, position + 1, pcs@.len() as int);
                    }
                    return Err(HarmonizeError::InvalidPitchClass(pc));
                }
                let midi: i16 = 12i16 * (options.melody_octave as i16 + 1) + pc as i16
                    + options.top_voice_offset as i16;
                if midi < 0 || midi > 127 {
                    proof {
                        lemma_canon_pcs_err(pcs@, *options, position + 1, pcs@.len() as int);
                    }
                    return Err(HarmonizeError::TargetMidiOutOfRange { position, target_midi: midi });
                }
                out.push(midi as u8);
                position = position + 1;
            }
            Ok(out)
        },
        MelodyInput::Pitches(pitches) => {
            if pitches.len() == 0 {
                return Err(HarmonizeError::EmptyMelody);
            }
            let mut out: Vec<u8> = Vec::new();
            let mut position: usize = 0;
            while position < pitches.len()
                invariant
                    0 <= position <= pitches@.len(),
                    *melody == MelodyInput::Pitches(*pitches),
                    pitches@.len() > 0,
                    canon_pitches(pitches@, *options, position as int) == Ok::<Seq<u8>, HarmonizeError>(out@),
                decreases pitches@.len() - position,
            {
                let target: i16 = pitches[position] as i16 + options.top_voice_offset as i16;
                if target < 0 || target > 127 {
                    proof {
                        lemma_canon_pitches_err(pitches@, *options, position + 1, pitches@.len() as int);
                    }
                    return Err(HarmonizeError::TargetMidiOutOfRange { position, target_midi: target });
                }
                out.push(target as u8);
                position = position + 1;
            }
            Ok(out)
        },
    }
}

} // verus!

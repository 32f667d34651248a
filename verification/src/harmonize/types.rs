//! Inputs, options, results and errors of melody harmonization.

use vstd::prelude::*;

use crate::quintal::types::VoicedChord;
use crate::text::{dec, dec_signed, push_decimal, push_signed, push_str};

verus! {

/// Input melody: pitch classes (octave-free) or absolute MIDI pitches.
#[derive(Debug, Clone, PartialEq, Eq)]
pub enum MelodyInput {
    /// Pitch classes in `0..=11` (C=0, C#=1, ..., B=11); the octave comes
    /// from [`HarmonizeOptions::melody_octave`].
    PitchClasses(Vec<u8>),
    /// Absolute MIDI pitches in `0..=127` (Middle C = 60, A4 = 69).
    Pitches(Vec<u8>),
}

/// Which voicing perspective(s) candidates are drawn from.
#[derive(Debug, Clone, Copy, PartialEq, Eq, Structural)]
pub enum DualityScope {
    /// Candidates only from quintal inversion cycles.
    QuintalOnly,
    /// Candidates only from quartal inversion cycles.
    QuartalOnly,
    /// Candidates from both quintal and quartal cycles.
    Both,
}

impl Default for DualityScope {
    fn default() -> (r: Self)
        ensures
            r == DualityScope::Both,
    {
        DualityScope::Both
    }
}

/// Configuration for melody harmonization.
#[derive(Debug, Clone, Copy)]
pub struct HarmonizeOptions {
    /// Semitone offset from each melody pitch to that chord's top voice.
    /// Negative pulls the harmony below the melody. Default: -12 (one octave).
    pub top_voice_offset: i8,
    /// Used only with [`MelodyInput::PitchClasses`]: the octave to place the
    /// implied melody in before applying `top_voice_offset`. Default: 5.
    pub melody_octave: i8,
    /// Voicing perspective(s) to draw from. Default: [`DualityScope::Both`].
    pub duality: DualityScope,
    /// Number of distinct progressions to return, ordered by ascending total
    /// movement. Default: 10.
    pub k: usize,
}

impl Default for HarmonizeOptions {
    fn default() -> (r: Self)
        ensures
            r.top_voice_offset == -12,
            r.melody_octave == 5,
            r.duality == DualityScope::Both,
            r.k == 10,
    {
        HarmonizeOptions { top_voice_offset: -12, melody_octave: 5, duality: DualityScope::Both, k: 10 }
    }
}

/// One harmonization: a chord progression with its voice-leading costs.
#[derive(Debug, Clone, PartialEq, Eq)]
pub struct Harmonization {
    /// One voiced chord per melody position.
    pub chords: Vec<VoicedChord>,
    /// `per_step_movements[i]` is the minimal voice-leading L1 distance from
    /// `chords[i]` to `chords[i + 1]`.
    pub per_step_movements: Vec<u32>,
    /// The sum of `per_step_movements`.
    pub total_movement: u32,
}

/// Errors returned by melody harmonization.
#[derive(Debug, Clone, PartialEq, Eq, Structural)]
pub enum HarmonizeError {
    /// The input melody was empty.
    EmptyMelody,
    /// A pitch class of the melody was outside `0..=11`.
    InvalidPitchClass(u8),
    /// The target MIDI pitch (melody note plus offset) at a position fell
    /// outside the playable range `0..=127`; `target_midi` is the computed value.
    TargetMidiOutOfRange { position: usize, target_midi: i16 },
    /// No candidate chord exists for the target pitch at a position.
    NoCandidatesForPosition { position: usize, top_midi: u8 },
}

/// The message describing a harmonization error.
pub open spec fn harmonize_error_text(e: HarmonizeError) -> Seq<char> {
    match e {
        HarmonizeError::EmptyMelody => "melody must contain at least one note"@,
        HarmonizeError::InvalidPitchClass(pc) => "melody pitch class "@ + dec(pc as nat)
            + " is outside the valid range 0..=11"@,
        HarmonizeError::TargetMidiOutOfRange { position, target_midi } => "target MIDI pitch "@
            + dec_signed(target_midi as int) + " at position "@ + dec(position as nat)
            + " is out of the playable range after applying top_voice_offset"@,
        HarmonizeError::NoCandidatesForPosition { position, top_midi } =>
            "no candidate chord found for melody position "@ + dec(position as nat) + " (top pitch "@
            + dec(top_midi as nat) + ")"@,
    }
}

impl HarmonizeError {
    /// The human-readable message of the error.
    pub fn to_string(&self) -> (r: String)
        ensures
            r@ == harmonize_error_text(*self),
    {
        let mut s = String::new();
        match self {
            HarmonizeError::EmptyMelody => {
                push_str(&mut s, "melody must contain at least one note");
            },
            HarmonizeError::InvalidPitchClass(pc) => {
                push_str(&mut s, "melody pitch class ");
                push_decimal(&mut s, *pc as u64);
                push_str(&mut s, " is outside the valid range 0..=11");
            },
            HarmonizeError::TargetMidiOutOfRange { position, target_midi } => {
                push_str(&mut s, "target MIDI pitch ");
                push_signed(&mut s, *target_midi as i64);
                push_str(&mut s, " at position ");
                push_decimal(&mut s, *position as u64);
                push_str(
                    &mut s,
                    " is out of the playable range after applying top_voice_offset",
                );
            },
            HarmonizeError::NoCandidatesForPosition { position, top_midi } => {
                push_str(&mut s, "no candidate chord found for melody position ");
                push_decimal(&mut s, *position as u64);
                push_str(&mut s, " (top pitch ");
                push_decimal(&mut s, *top_midi as u64);
                push_str(&mut s, ")");
            },
        }
        assert(s@ =~= harmonize_error_text(*self));
        s
    }
}

} // verus!

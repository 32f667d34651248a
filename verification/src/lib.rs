//! Open Tone Harmony: the quintal/quartal voice-leading geometry of
//! four-note chords built from stacked fifths and fourths, together with
//! melody harmonization, first-species counterpoint checking and MIDI
//! pitch parsing.

pub mod counterpoint;
pub mod harmonize;
pub mod note;
pub mod quartal;
pub mod quintal;
pub mod text;
pub mod voice_leading;

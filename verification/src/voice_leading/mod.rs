//! Voice-leading distances between voiced chords.

pub mod min_l1;

pub use min_l1::min_voiced_chord_l1;

use vstd::prelude::*;

use crate::text::{dec, push_decimal, push_str};

verus! {

/// An error arising from quintal chord construction or validation.
#[derive(Debug, Clone, PartialEq, Eq, Structural)]
pub enum QuintalError {
    /// A pitch class value was outside the valid range 0..=11.
    PitchClassOutOfRange(u8),
    /// The pitch class set contains duplicate values (mod 12).
    DuplicatePitchClasses,
    /// The input slice had the wrong number of elements (expected 4).
    WrongCardinality(usize),
    /// MIDI pitches were not in strictly ascending order.
    NotAscending,
    /// The pitch-class chord admits no legal quintal stacking.
    NoLegalStacking,
}

/// The message describing a quintal error.
pub open spec fn quintal_error_text(e: QuintalError) -> Seq<char> {
    match e {
        QuintalError::PitchClassOutOfRange(pc) => "pitch class out of range: "@ + dec(pc as nat)
            + " (must be 0..=11)"@,
        QuintalError::DuplicatePitchClasses => "duplicate pitch classes"@,
        QuintalError::WrongCardinality(n) => "wrong cardinality: expected 4, got "@ + dec(
            n as nat,
        ),
        QuintalError::NotAscending => "pitches must be in strictly ascending order"@,
        QuintalError::NoLegalStacking => "no legal quintal stacking"@,
    }
}

impl QuintalError {
    /// The human-readable message of the error.
    pub fn to_string(&self) -> (r: String)
        ensures
            r@ == quintal_error_text(*self),
    {
        let mut s = String::new();
        match self {
            QuintalError::PitchClassOutOfRange(pc) => {
                push_str(&mut s, "pitch class out of range: ");
                push_decimal(&mut s, *pc as u64);
                push_str(&mut s, " (must be 0..=11)");
            },
            QuintalError::DuplicatePitchClasses => {
                push_str(&mut s, "duplicate pitch classes");
            },
            QuintalError::WrongCardinality(n) => {
                push_str(&mut s, "wrong cardinality: expected 4, got ");
                push_decimal(&mut s, *n as u64);
            },
            QuintalError::NotAscending => {
                push_str(&mut s, "pitches must be in strictly ascending order");
            },
            QuintalError::NoLegalStacking => {
                push_str(&mut s, "no legal quintal stacking");
            },
        }
        assert(s@ =~= quintal_error_text(*self));
        s
    }
}

} // verus!

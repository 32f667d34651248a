use vstd::prelude::*;

use crate::quintal::QuintalError;
use crate::text::{dec, push_decimal, push_str};

verus! {

/// An error arising from quartal chord construction or validation.
#[derive(Debug, Clone, PartialEq, Eq, Structural)]
pub enum QuartalError {
    /// An interval value was outside the legal quartal range {4, 5, 6}.
    IllegalInterval(u8),
    /// The wrong number of intervals was provided (expected 3).
    WrongIntervalCount(usize),
    /// MIDI pitches were not in strictly ascending order.
    NotAscending,
    /// The pitch class set contains duplicate values (mod 12).
    DuplicatePitchClasses,
    /// A pitch class value was outside the valid range 0..=11.
    PitchClassOutOfRange(u8),
    /// The pitch-class chord admits no legal quintal stacking.
    NoLegalStacking,
}

/// The message describing a quartal error.
pub open spec fn quartal_error_text(e: QuartalError) -> Seq<char> {
    match e {
        QuartalError::IllegalInterval(i) => "illegal quartal interval: "@ + dec(i as nat)
            + " (must be 4, 5, or 6)"@,
        QuartalError::WrongIntervalCount(n) => "wrong interval count: expected 3, got "@ + dec(
            n as nat,
        ),
        QuartalError::NotAscending => "pitches must be in strictly ascending order"@,
        QuartalError::DuplicatePitchClasses => "duplicate pitch classes"@,
        QuartalError::PitchClassOutOfRange(pc) => "pitch class out of range: "@ + dec(pc as nat)
            + " (must be 0..=11)"@,
        QuartalError::NoLegalStacking => "no legal quintal stacking"@,
    }
}

/// The quartal error corresponding to a quintal error.
pub open spec fn quartal_from_quintal(e: QuintalError) -> QuartalError {
    match e {
        QuintalError::PitchClassOutOfRange(pc) => QuartalError::PitchClassOutOfRange(pc),
        QuintalError::DuplicatePitchClasses => QuartalError::DuplicatePitchClasses,
        QuintalError::WrongCardinality(_) => QuartalError::WrongIntervalCount(0),
        QuintalError::NotAscending => QuartalError::NotAscending,
        QuintalError::NoLegalStacking => QuartalError::NoLegalStacking,
    }
}

impl QuartalError {
    /// The human-readable message of the error.
    pub fn to_string(&self) -> (r: String)
        ensures
            r@ == quartal_error_text(*self),
    {
        let mut s = String::new();
        match self {
            QuartalError::IllegalInterval(i) => {
                push_str(&mut s, "illegal quartal interval: ");
                push_decimal(&mut s, *i as u64);
                push_str(&mut s, " (must be 4, 5, or 6)");
            },
            QuartalError::WrongIntervalCount(n) => {
                push_str(&mut s, "wrong interval count: expected 3, got ");
                push_decimal(&mut s, *n as u64);
            },
            QuartalError::NotAscending => {
                push_str(&mut s, "pitches must be in strictly ascending order");
            },
            QuartalError::DuplicatePitchClasses => {
                push_str(&mut s, "duplicate pitch classes");
            },
            QuartalError::PitchClassOutOfRange(pc) => {
                push_str(&mut s, "pitch class out of range: ");
                push_decimal(&mut s, *pc as u64);
                push_str(&mut s, " (must be 0..=11)");
            },
            QuartalError::NoLegalStacking => {
                push_str(&mut s, "no legal quintal stacking");
            },
        }
        assert(s@ =~= quartal_error_text(*self));
        s
    }
}

impl From<QuintalError> for QuartalError {
    fn from(e: QuintalError) -> (r: Self) {
        match e {
            QuintalError::PitchClassOutOfRange(pc) => QuartalError::PitchClassOutOfRange(pc),
            QuintalError::DuplicatePitchClasses => QuartalError::DuplicatePitchClasses,
            QuintalError::WrongCardinality(_) => QuartalError::WrongIntervalCount(0),
            QuintalError::NotAscending => QuartalError::NotAscending,
            QuintalError::NoLegalStacking => QuartalError::NoLegalStacking,
        }
    }
}

impl vstd::std_specs::convert::FromSpecImpl<QuintalError> for QuartalError {
    open spec fn obeys_from_spec() -> bool {
        true
    }

    open spec fn from_spec(e: QuintalError) -> QuartalError {
        quartal_from_quintal(e)
    }
}

} // verus!

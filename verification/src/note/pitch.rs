//! Pitches: a note letter with accidentals, and the common pitch symbols.

use vstd::prelude::*;

use crate::text::push_str;

verus! {

/// A note letter.
#[derive(Debug, Clone, Copy, PartialEq, Eq, Structural, Hash)]
pub enum NoteLetter {
    C,
    D,
    E,
    F,
    G,
    A,
    B,
}

/// The semitone of a natural note letter above C.
pub open spec fn letter_value(l: NoteLetter) -> int {
    match l {
        NoteLetter::C => 0,
        NoteLetter::D => 2,
        NoteLetter::E => 4,
        NoteLetter::F => 5,
        NoteLetter::G => 7,
        NoteLetter::A => 9,
        NoteLetter::B => 11,
    }
}

/// A pitch: a note letter raised (positive) or lowered (negative) by a
/// number of semitones of accidentals.
#[derive(Debug, Clone, Copy, PartialEq, Eq, Structural, Hash)]
pub struct Pitch {
    /// The note letter.
    pub letter: NoteLetter,
    /// Sharps (positive) or flats (negative).
    pub accidental: i8,
}

/// The pitch class of a pitch, in 0..=11.
pub open spec fn pitch_value(p: Pitch) -> int {
    (letter_value(p.letter) + p.accidental) % 12
}

/// The common pitch symbols: natural letters and their single sharps and flats.
#[derive(Debug, Clone, Copy, PartialEq, Eq, Structural, Hash)]
pub enum PitchSymbol {
    Cb,
    C,
    Cs,
    Db,
    D,
    Ds,
    Eb,
    E,
    Es,
    Fb,
    F,
    Fs,
    Gb,
    G,
    Gs,
    Ab,
    A,
    As,
    Bb,
    B,
    Bs,
}

/// The pitch a symbol names.
pub open spec fn symbol_pitch(s: PitchSymbol) -> Pitch {
    match s {
        PitchSymbol::Cb => Pitch { letter: NoteLetter::C, accidental: -1i8 },
        PitchSymbol::C => Pitch { letter: NoteLetter::C, accidental: 0i8 },
        PitchSymbol::Cs => Pitch { letter: NoteLetter::C, accidental: 1i8 },
        PitchSymbol::Db => Pitch { letter: NoteLetter::D, accidental: -1i8 },
        PitchSymbol::D => Pitch { letter: NoteLetter::D, accidental: 0i8 },
        PitchSymbol::Ds => Pitch { letter: NoteLetter::D, accidental: 1i8 },
        PitchSymbol::Eb => Pitch { letter: NoteLetter::E, accidental: -1i8 },
        PitchSymbol::E => Pitch { letter: NoteLetter::E, accidental: 0i8 },
        PitchSymbol::Es => Pitch { letter: NoteLetter::E, accidental: 1i8 },
        PitchSymbol::Fb => Pitch { letter: NoteLetter::F, accidental: -1i8 },
        PitchSymbol::F => Pitch { letter: NoteLetter::F, accidental: 0i8 },
        PitchSymbol::Fs => Pitch { letter: NoteLetter::F, accidental: 1i8 },
        PitchSymbol::Gb => Pitch { letter: NoteLetter::G, accidental: -1i8 },
        PitchSymbol::G => Pitch { letter: NoteLetter::G, accidental: 0i8 },
        PitchSymbol::Gs => Pitch { letter: NoteLetter::G, accidental: 1i8 },
        PitchSymbol::Ab => Pitch { letter: NoteLetter::A, accidental: -1i8 },
        PitchSymbol::A => Pitch { letter: NoteLetter::A, accidental: 0i8 },
        PitchSymbol::As => Pitch { letter: NoteLetter::A, accidental: 1i8 },
        PitchSymbol::Bb => Pitch { letter: NoteLetter::B, accidental: -1i8 },
        PitchSymbol::B => Pitch { letter: NoteLetter::B, accidental: 0i8 },
        PitchSymbol::Bs => Pitch { letter: NoteLetter::B, accidental: 1i8 },
    }
}

impl From<PitchSymbol> for Pitch {
    fn from(s: PitchSymbol) -> (r: Pitch) {
        match s {
            PitchSymbol::Cb => Pitch { letter: NoteLetter::C, accidental: -1 },
            PitchSymbol::C => Pitch { letter: NoteLetter::C, accidental: 0 },
            PitchSymbol::Cs => Pitch { letter: NoteLetter::C, accidental: 1 },
            PitchSymbol::Db => Pitch { letter: NoteLetter::D, accidental: -1 },
            PitchSymbol::D => Pitch { letter: NoteLetter::D, accidental: 0 },
            PitchSymbol::Ds => Pitch { letter: NoteLetter::D, accidental: 1 },
            PitchSymbol::Eb => Pitch { letter: NoteLetter::E, accidental: -1 },
            PitchSymbol::E => Pitch { letter: NoteLetter::E, accidental: 0 },
            PitchSymbol::Es => Pitch { letter: NoteLetter::E, accidental: 1 },
            PitchSymbol::Fb => Pitch { letter: NoteLetter::F, accidental: -1 },
            PitchSymbol::F => Pitch { letter: NoteLetter::F, accidental: 0 },
            PitchSymbol::Fs => Pitch { letter: NoteLetter::F, accidental: 1 },
            PitchSymbol::Gb => Pitch { letter: NoteLetter::G, accidental: -1 },
            PitchSymbol::G => Pitch { letter: NoteLetter::G, accidental: 0 },
            PitchSymbol::Gs => Pitch { letter: NoteLetter::G, accidental: 1 },
            PitchSymbol::Ab => Pitch { letter: NoteLetter::A, accidental: -1 },
            PitchSymbol::A => Pitch { letter: NoteLetter::A, accidental: 0 },
            PitchSymbol::As => Pitch { letter: NoteLetter::A, accidental: 1 },
            PitchSymbol::Bb => Pitch { letter: NoteLetter::B, accidental: -1 },
            PitchSymbol::B => Pitch { letter: NoteLetter::B, accidental: 0 },
            PitchSymbol::Bs => Pitch { letter: NoteLetter::B, accidental: 1 },
        }
    }
}

impl vstd::std_specs::convert::FromSpecImpl<PitchSymbol> for Pitch {
    open spec fn obeys_from_spec() -> bool {
        true
    }

    open spec fn from_spec(s: PitchSymbol) -> Pitch {
        symbol_pitch(s)
    }
}

/// The note letter named by a character, upper or lower case.
pub open spec fn letter_of(c: char) -> Option<NoteLetter> {
    if c == 'C' || c == 'c' {
        Some(NoteLetter::C)
    } else if c == 'D' || c == 'd' {
        Some(NoteLetter::D)
    } else if c == 'E' || c == 'e' {
        Some(NoteLetter::E)
    } else if c == 'F' || c == 'f' {
        Some(NoteLetter::F)
    } else if c == 'G' || c == 'g' {
        Some(NoteLetter::G)
    } else if c == 'A' || c == 'a' {
        Some(NoteLetter::A)
    } else if c == 'B' || c == 'b' {
        Some(NoteLetter::B)
    } else {
        None
    }
}

/// The semitone shift of an accidental character: `#` and `♯` raise, `b`
/// and `♭` lower.
pub open spec fn accidental_of(c: char) -> Option<int> {
    if c == '#' || c == '\u{266f}' {
        Some(1)
    } else if c == 'b' || c == '\u{266d}' {
        Some(-1)
    } else {
        None
    }
}

/// The total shift of the first `n` accidental characters, if all are accidentals.
pub open spec fn accidentals_sum(cs: Seq<char>, n: int) -> Option<int>
    decreases n,
{
    if n <= 0 {
        Some(0)
    } else {
        match (accidentals_sum(cs, n - 1), accidental_of(cs[n - 1])) {
            (Some(a), Some(b)) => Some(a + b),
            _ => None,
        }
    }
}

/// The pitch written as a letter followed by accidentals.
pub open spec fn parse_pitch_spec(cs: Seq<char>) -> Option<Pitch> {
    if cs.len() == 0 {
        None
    } else {
        match (letter_of(cs[0]), accidentals_sum(cs.drop_first(), cs.len() - 1)) {
            (Some(l), Some(a)) => if -128 <= a <= 127 {
                Some(Pitch { letter: l, accidental: a as i8 })
            } else {
                None
            },
            _ => None,
        }
    }
}

/// The letter of a character.
fn letter_exec(c: char) -> (r: Option<NoteLetter>)
    ensures
        r == letter_of(c),
{
    if c == 'C' || c == 'c' {
        Some(NoteLetter::C)
    } else if c == 'D' || c == 'd' {
        Some(NoteLetter::D)
    } else if c == 'E' || c == 'e' {
        Some(NoteLetter::E)
    } else if c == 'F' || c == 'f' {
        Some(NoteLetter::F)
    } else if c == 'G' || c == 'g' {
        Some(NoteLetter::G)
    } else if c == 'A' || c == 'a' {
        Some(NoteLetter::A)
    } else if c == 'B' || c == 'b' {
        Some(NoteLetter::B)
    } else {
        None
    }
}

impl Pitch {
    /// Create a pitch from a letter and an accidental shift.
    pub fn new(letter: NoteLetter, accidental: i8) -> (r: Pitch)
        ensures
            r == (Pitch { letter, accidental }),
    {
        Pitch { letter, accidental }
    }

    /// Parse the characters `chars[from..to]` as a pitch: a letter (upper or
    /// lower case) followed by any number of accidentals (`#`, `♯`, `b`, `♭`).
    pub fn try_parse_chars(chars: &Vec<char>, from: usize, to: usize) -> (r: Option<Pitch>)
        requires
            from <= to <= chars@.len(),
        ensures
            r == parse_pitch_spec(chars@.subrange(from as int, to as int)),
    {
        let ghost cs = chars@.subrange(from as int, to as int);
        if from == to {
            return None;
        }
        let letter = match letter_exec(chars[from]) {
            Some(l) => l,
            None => return None,
        };
        let ghost rest = cs.drop_first();
        let mut acc: i128 = 0;
        let mut i: usize = from + 1;
        while i < to
            invariant
                from < i <= to <= chars@.len(),
                cs == chars@.subrange(from as int, to as int),
                rest == cs.drop_first(),
                accidentals_sum(rest, i - from - 1) == Some(acc as int),
                -(i as int) <= acc <= i,
            decreases to - i,
        {
            let c = chars[i];
            proof {
                assert(rest[i - from - 1] == c);
            }
            if c == '#' || c == '\u{266f}' {
                acc = acc + 1;
            } else if c == 'b' || c == '\u{266d}' {
                acc = acc - 1;
            } else {
                proof {
                    lemma_accidentals_none(rest, i - from, (to - from - 1) as int);
                }
                return None;
            }
            i = i + 1;
        }
        if acc < -128 || acc > 127 {
            return None;
        }
        Some(Pitch { letter, accidental: acc as i8 })
    }

    /// The pitch class of the pitch, 0..=11 (C = 0).
    pub fn as_u8(&self) -> (r: u8)
        ensures
            r == pitch_value(*self),
            r < 12,
    {
        let v: i16 = (letter_semitone(self.letter) as i16 + self.accidental as i16) % 12;
        if v < 0 {
            (v + 12) as u8
        } else {
            v as u8
        }
    }

    /// The pitch written as its letter followed by its accidentals (`#` for
    /// each sharp, `b` for each flat).
    pub fn to_string(&self) -> (r: String)
        ensures
            r@ == pitch_name(*self),
    {
        let mut s = String::new();
        push_str(&mut s, letter_name(self.letter));
        let mut i: i16 = 0;
        let target: i16 = if self.accidental < 0 {
            -(self.accidental as i16)
        } else {
            self.accidental as i16
        };
        while i < target
            invariant
                0 <= i <= target,
                target == (if self.accidental < 0 { -self.accidental } else { self.accidental as int }),
                s@ == letter_name_spec(self.letter) + repeat_char(if self.accidental < 0 { 'b' } else { '#' }, i as nat),
            decreases target - i,
        {
            let ghost before = s@;
            if self.accidental < 0 {
                proof {
                    reveal_strlit("b");
                }
                push_str(&mut s, "b");
            } else {
                proof {
                    reveal_strlit("#");
                }
                push_str(&mut s, "#");
            }
            proof {
                let c = if self.accidental < 0 { 'b' } else { '#' };
                assert(s@ =~= letter_name_spec(self.letter) + repeat_char(c, (i + 1) as nat));
            }
            i = i + 1;
        }
        s
    }
}

/// An accidental string breaks at the first non-accidental character.
proof fn lemma_accidentals_none(cs: Seq<char>, m: int, n: int)
    requires
        1 <= m <= n,
        accidentals_sum(cs, m) is None,
    ensures
        accidentals_sum(cs, n) is None,
    decreases n - m,
{
    if m < n {
        lemma_accidentals_none(cs, m, n - 1);
    }
}

/// The semitone of a letter above C.
fn letter_semitone(l: NoteLetter) -> (r: u8)
    ensures
        r == letter_value(l),
{
    match l {
        NoteLetter::C => 0,
        NoteLetter::D => 2,
        NoteLetter::E => 4,
        NoteLetter::F => 5,
        NoteLetter::G => 7,
        NoteLetter::A => 9,
        NoteLetter::B => 11,
    }
}

/// The name of a letter.
pub open spec fn letter_name_spec(l: NoteLetter) -> Seq<char> {
    match l {
        NoteLetter::C => seq!['C'],
        NoteLetter::D => seq!['D'],
        NoteLetter::E => seq!['E'],
        NoteLetter::F => seq!['F'],
        NoteLetter::G => seq!['G'],
        NoteLetter::A => seq!['A'],
        NoteLetter::B => seq!['B'],
    }
}

/// `n` copies of a character.
pub open spec fn repeat_char(c: char, n: nat) -> Seq<char>
    decreases n,
{
    if n == 0 {
        seq![]
    } else {
        repeat_char(c, (n - 1) as nat).push(c)
    }
}

/// The written name of a pitch.
pub open spec fn pitch_name(p: Pitch) -> Seq<char> {
    if p.accidental < 0 {
        letter_name_spec(p.letter) + repeat_char('b', (-p.accidental) as nat)
    } else {
        letter_name_spec(p.letter) + repeat_char('#', p.accidental as nat)
    }
}

/// The one-letter string of a letter.
fn letter_name(l: NoteLetter) -> (r: &'static str)
    ensures
        r@ == letter_name_spec(l),
{
    proof {
        reveal_strlit("C");
        reveal_strlit("D");
        reveal_strlit("E");
        reveal_strlit("F");
        reveal_strlit("G");
        reveal_strlit("A");
        reveal_strlit("B");
    }
    match l {
        NoteLetter::C => "C",
        NoteLetter::D => "D",
        NoteLetter::E => "E",
        NoteLetter::F => "F",
        NoteLetter::G => "G",
        NoteLetter::A => "A",
        NoteLetter::B => "B",
    }
}

} // verus!

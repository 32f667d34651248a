//! Notes, pitches and MIDI pitch numbers.

pub mod pitch;

pub use pitch::{NoteLetter, Pitch, PitchSymbol};

use vstd::prelude::*;
use vstd::string::StrSliceExecFns;

use pitch::{parse_pitch_spec, pitch_name, pitch_value};
use crate::text::{dec, push_decimal, push_str};

verus! {

/// An error arising from note parsing.
#[derive(Debug, Clone, Copy, PartialEq, Eq, Structural)]
pub enum NoteError {
    /// The string is not a pitch with an octave inside the MIDI range.
    InvalidPitch,
}

/// A note: a pitch in an octave of standard notation.
#[derive(Debug, Clone, Copy, PartialEq, Eq, Structural, Hash)]
pub struct Note {
    /// The pitch of the note (A, B, C#, etc).
    pub pitch: Pitch,
    /// The octave of the note in standard notation.
    pub octave: u8,
}

impl Note {
    /// Create a new note.
    pub fn new(pitch: Pitch, octave: u8) -> (r: Note)
        ensures
            r == (Note { pitch, octave }),
    {
        Note { pitch, octave }
    }

    /// The note written as its pitch name, e.g. `C#` (the octave is not shown).
    pub fn to_string(&self) -> (r: String)
        ensures
            r@ == pitch_name(self.pitch),
    {
        self.pitch.to_string()
    }

    /// The MIDI pitch number of the note, `(octave + 1) * 12 + pitch class`,
    /// capped at 127 (Middle C = C4 = 60, A4 = 69).
    pub fn midi_pitch(&self) -> (r: u8)
        ensures
            r == (if (self.octave + 1) * 12 + pitch_value(self.pitch) > 127 {
                127
            } else {
                (self.octave + 1) * 12 + pitch_value(self.pitch)
            }),
    {
        let semitone = self.pitch.as_u8();
        let midi_value: u16 = (self.octave as u16 + 1) * 12 + semitone as u16;
        if midi_value > 127 {
            127
        } else {
            midi_value as u8
        }
    }
}

/// The numbered lines of the first `n` notes: `  i: <pitch>` each.
pub open spec fn note_lines(notes: Seq<Note>, n: int) -> Seq<char>
    decreases n,
{
    if n <= 0 {
        seq![]
    } else {
        note_lines(notes, n - 1) + "  "@ + dec(n as nat) + ": "@ + pitch_name(notes[n - 1].pitch) + "\n"@
    }
}

/// A numbered list of notes: `Notes:` and one line per note.
pub open spec fn notes_text(notes: Seq<Note>) -> Seq<char> {
    "Notes:\n"@ + note_lines(notes, notes.len() as int)
}

/// Format notes as a numbered list: a `Notes:` line, then `  1: C`,
/// `  2: E`, … one line per note.
pub fn format_note_list(notes: &Vec<Note>) -> (r: String)
    ensures
        r@ == notes_text(notes@),
{
    let mut out = String::new();
    push_str(&mut out, "Notes:\n");
    let mut i: usize = 0;
    while i < notes.len()
        invariant
            0 <= i <= notes@.len(),
            out@ == "Notes:\n"@ + note_lines(notes@, i as int),
        decreases notes@.len() - i,
    {
        push_str(&mut out, "  ");
        push_decimal(&mut out, i as u64 + 1);
        push_str(&mut out, ": ");
        let name = notes[i].pitch.to_string();
        push_str(&mut out, name.as_str());
        push_str(&mut out, "\n");
        proof {
            assert(out@ =~= "Notes:\n"@ + note_lines(notes@, i + 1));
        }
        i = i + 1;
    }
    out
}

/// A value made of a sequence of notes, such as a chord or a scale.
pub trait Notes {
    /// The sequence of notes that `notes` returns, as a mathematical sequence.
    spec fn note_seq(&self) -> Seq<Note>;

    /// The sequence of notes.
    fn notes(&self) -> (r: Vec<Note>)
        ensures
            r@ == self.note_seq(),
    ;

    /// The notes as a numbered list (see [`format_note_list`]).
    fn format_notes(&self) -> (r: String)
        ensures
            r@ == notes_text(self.note_seq()),
    {
        format_note_list(&self.notes())
    }
}

/// Whether a character has the Unicode `White_Space` property: the ASCII
/// tab, line feed, vertical tab, form feed, carriage return and space, next
/// line (U+0085), no-break space (U+00A0), Ogham space mark (U+1680), the
/// spaces U+2000 to U+200A, line and paragraph separators (U+2028, U+2029),
/// narrow no-break space (U+202F), medium mathematical space (U+205F) and
/// ideographic space (U+3000).
pub open spec fn is_white(c: char) -> bool {
    let x = c as u32;
    ||| 0x09 <= x <= 0x0D
    ||| x == 0x20
    ||| x == 0x85
    ||| x == 0xA0
    ||| x == 0x1680
    ||| 0x2000 <= x <= 0x200A
    ||| x == 0x2028
    ||| x == 0x2029
    ||| x == 0x202F
    ||| x == 0x205F
    ||| x == 0x3000
}

/// Whether the character has the Unicode `White_Space` property, the code
/// points listed at `is_white` (what `char::is_whitespace` tests).
fn char_is_whitespace(c: char) -> (r: bool)
    ensures
        r == is_white(c),
{
    let x = c as u32;
    (0x09 <= x && x <= 0x0D) || x == 0x20 || x == 0x85 || x == 0xA0 || x == 0x1680 || (0x2000 <= x
        && x <= 0x200A) || x == 0x2028 || x == 0x2029 || x == 0x202F || x == 0x205F || x == 0x3000
}

/// An ASCII decimal digit.
pub open spec fn is_digit(c: char) -> bool {
    '0' <= c <= '9'
}

/// The index of the first non-whitespace character at or after `i`.
pub open spec fn skip_white(cs: Seq<char>, i: int) -> int
    decreases cs.len() - i,
{
    if 0 <= i < cs.len() && is_white(cs[i]) {
        skip_white(cs, i + 1)
    } else {
        i
    }
}

/// The end of the text after removing trailing whitespace, scanning down from `j` to `a`.
pub open spec fn trim_back(cs: Seq<char>, a: int, j: int) -> int
    decreases j,
{
    if j > a && j > 0 && is_white(cs[j - 1]) {
        trim_back(cs, a, j - 1)
    } else {
        j
    }
}

/// Where the octave starts: the start of the longest run before `j` of
/// digits and minus signs that are not the first character (at `a`).
pub open spec fn octave_start(cs: Seq<char>, a: int, j: int) -> int
    decreases j,
{
    if j > a && j > 0 && (is_digit(cs[j - 1]) || (cs[j - 1] == '-' && j - 1 > a)) {
        octave_start(cs, a, j - 1)
    } else {
        j
    }
}

/// The value of the first `n` characters, if all are decimal digits.
pub open spec fn digits_value(cs: Seq<char>, n: int) -> Option<int>
    decreases n,
{
    if n <= 0 {
        Some(0)
    } else {
        match digits_value(cs, n - 1) {
            Some(v) => if is_digit(cs[n - 1]) {
                Some(v * 10 + (cs[n - 1] as int - '0' as int))
            } else {
                None
            },
            None => None,
        }
    }
}

/// A decimal `i16` as `str::parse` reads it: an optional sign and at least
/// one digit, within range.
pub open spec fn parse_i16_spec(cs: Seq<char>) -> Option<int> {
    if cs.len() == 0 {
        None
    } else if cs[0] == '-' || cs[0] == '+' {
        if cs.len() == 1 {
            None
        } else {
            match digits_value(cs.drop_first(), cs.len() - 1) {
                Some(v) => if cs[0] == '-' {
                    if v <= 32768 {
                        Some(-v)
                    } else {
                        None
                    }
                } else if v <= 32767 {
                    Some(v)
                } else {
                    None
                },
                None => None,
            }
        }
    } else {
        match digits_value(cs, cs.len() as int) {
            Some(v) => if v <= 32767 {
                Some(v)
            } else {
                None
            },
            None => None,
        }
    }
}

/// What parsing a pitch string yields.
pub open spec fn parse_midi_spec(s: Seq<char>) -> Result<u8, NoteError> {
    let a = skip_white(s, 0);
    let b = trim_back(s, a, s.len() as int);
    let os = octave_start(s, a, b);
    if a >= b || os == a || os == b {
        Err(NoteError::InvalidPitch)
    } else {
        match (parse_pitch_spec(s.subrange(a, os)), parse_i16_spec(s.subrange(os, b))) {
            (Some(p), Some(o)) => {
                let midi = (o + 1) * 12 + pitch_value(p);
                if 0 <= midi <= 127 {
                    Ok(midi as u8)
                } else {
                    Err(NoteError::InvalidPitch)
                }
            },
            _ => Err(NoteError::InvalidPitch),
        }
    }
}

/// Values of digit strings only grow as digits are appended.
proof fn lemma_digits_grow(cs: Seq<char>, m: int, n: int)
    requires
        0 <= m <= n,
        digits_value(cs, m) is Some,
    ensures
        digits_value(cs, n) matches Some(w) ==> w >= digits_value(cs, m)->0,
    decreases n - m,
{
    if m < n {
        lemma_digits_grow(cs, m, n - 1);
        lemma_digits_nonneg(cs, n - 1);
        if digits_value(cs, n - 1) is None {
            assert(digits_value(cs, n) is None);
        }
    }
}

/// Digit strings have non-negative values.
proof fn lemma_digits_nonneg(cs: Seq<char>, n: int)
    ensures
        digits_value(cs, n) matches Some(w) ==> w >= 0,
    decreases n,
{
    if n > 0 {
        lemma_digits_nonneg(cs, n - 1);
    }
}

/// A non-digit ends a digit string.
proof fn lemma_digits_none(cs: Seq<char>, m: int, n: int)
    requires
        0 <= m <= n,
        digits_value(cs, m) is None,
    ensures
        digits_value(cs, n) is None,
    decreases n - m,
{
    if m < n {
        lemma_digits_none(cs, m, n - 1);
    }
}

/// The value of the digit string `chars[from..to]`, or `None` if it holds a
/// non-digit or exceeds `limit` (at most 40000).
fn digits_exec(chars: &Vec<char>, from: usize, to: usize, limit: u32) -> (r: Option<u32>)
    requires
        from <= to <= chars@.len(),
        limit <= 40000,
    ensures
        ({
            let d = digits_value(chars@.subrange(from as int, to as int), to - from);
            &&& r matches Some(v) ==> d == Some(v as int) && v <= limit
            &&& r is None ==> d is None || d->0 > limit
        }),
{
    let ghost cs = chars@.subrange(from as int, to as int);
    let mut v: u32 = 0;
    let mut i: usize = from;
    while i < to
        invariant
            from <= i <= to <= chars@.len(),
            cs == chars@.subrange(from as int, to as int),
            limit <= 40000,
            digits_value(cs, i - from) == Some(v as int),
            v <= limit,
        decreases to - i,
    {
        let c = chars[i];
        proof {
            assert(cs[i - from] == c);
        }
        if c < '0' || c > '9' {
            proof {
                lemma_digits_none(cs, i - from + 1, to - from);
            }
            return None;
        }
        let d = (c as u32) - ('0' as u32);
        let nv = v * 10 + d;
        if nv > limit {
            proof {
                lemma_digits_grow(cs, i - from + 1, to - from);
            }
            return None;
        }
        v = nv;
        i = i + 1;
    }
    Some(v)
}

/// Parse `chars[from..to]` as an `i16` in the way `str::parse` does.
fn parse_i16_exec(chars: &Vec<char>, from: usize, to: usize) -> (r: Option<i16>)
    requires
        from <= to <= chars@.len(),
    ensures
        r matches Some(v) ==> parse_i16_spec(chars@.subrange(from as int, to as int)) == Some(v as int),
        r is None ==> parse_i16_spec(chars@.subrange(from as int, to as int)) is None,
{
    let ghost cs = chars@.subrange(from as int, to as int);
    if from == to {
        return None;
    }
    let first = chars[from];
    if first == '-' || first == '+' {
        if to - from == 1 {
            return None;
        }
        proof {
            assert(cs.drop_first() =~= chars@.subrange(from + 1, to as int));
        }
        let limit: u32 = if first == '-' {
            32768
        } else {
            32767
        };
        match digits_exec(chars, from + 1, to, limit) {
            Some(v) => {
                if first == '-' {
                    Some((0 - (v as i32)) as i16)
                } else {
                    Some(v as i16)
                }
            },
            None => None,
        }
    } else {
        match digits_exec(chars, from, to, 32767) {
            Some(v) => Some(v as i16),
            None => None,
        }
    }
}

/// Parse a pitch string such as `"C4"`, `"F#3"` or `"Bb-1"` into a MIDI
/// pitch number (0–127): surrounding whitespace is ignored, a letter with
/// accidentals (`#`, `♯`, `b`, `♭`) is followed by an octave number, and
/// C-1 = 0, C4 = 60. Fails with `InvalidPitch` when the string is malformed
/// or the pitch lies outside 0–127.
pub fn parse_midi_pitch(s: &str) -> (r: Result<u8, NoteError>)
    ensures
        r == parse_midi_spec(s@),
{
    let n = s.unicode_len();
    let mut chars: Vec<char> = Vec::new();
    let mut i: usize = 0;
    while i < n
        invariant
            0 <= i <= n,
            n == s@.len(),
            chars@ == s@.subrange(0, i as int),
        decreases n - i,
    {
        chars.push(s.get_char(i));
        proof {
            assert(chars@ =~= s@.subrange(0, i + 1));
        }
        i = i + 1;
    }
    assert(chars@ =~= s@);
    let ghost cs = s@;
    let mut a: usize = 0;
    while a < n && char_is_whitespace(chars[a])
        invariant
            0 <= a <= n,
            n == cs.len(),
            chars@ == cs,
            skip_white(cs, 0) == skip_white(cs, a as int),
        decreases n - a,
    {
        a = a + 1;
    }
    let mut b: usize = n;
    while b > a && char_is_whitespace(chars[b - 1])
        invariant
            a <= b <= n,
            n == cs.len(),
            chars@ == cs,
            a == skip_white(cs, 0),
            trim_back(cs, a as int, n as int) == trim_back(cs, a as int, b as int),
        decreases b,
    {
        b = b - 1;
    }
    if a >= b {
        return Err(NoteError::InvalidPitch);
    }
    let mut os: usize = b;
    while os > a && ((chars[os - 1] >= '0' && chars[os - 1] <= '9') || (chars[os - 1] == '-' && os - 1 > a))
        invariant
            a <= os <= b <= n,
            n == cs.len(),
            chars@ == cs,
            a == skip_white(cs, 0),
            b == trim_back(cs, a as int, n as int),
            octave_start(cs, a as int, b as int) == octave_start(cs, a as int, os as int),
        decreases os,
    {
        os = os - 1;
    }
    if os == a || os == b {
        return Err(NoteError::InvalidPitch);
    }
    let pitch = match Pitch::try_parse_chars(&chars, a, os) {
        Some(p) => p,
        None => return Err(NoteError::InvalidPitch),
    };
    let octave = match parse_i16_exec(&chars, os, b) {
        Some(o) => o,
        None => return Err(NoteError::InvalidPitch),
    };
    let midi: i32 = (octave as i32 + 1) * 12 + pitch.as_u8() as i32;
    if midi < 0 || midi > 127 {
        return Err(NoteError::InvalidPitch);
    }
    Ok(midi as u8)
}

} // verus!

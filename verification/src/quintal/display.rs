//! Note-name renderings of pitch-class chords: the pitch-class-set form
//! (ascending pitch classes) and the root chord form (the chord's quintal
//! stack walk), both dashed by en-dash and spelled with sharps.

use vstd::prelude::*;

use super::types::{perm4, perm_at, PcChord};
use crate::text::push_str;

verus! {

/// The sharps-only name of a pitch class (taken modulo 12).
pub open spec fn pc_name(pc: u8) -> Seq<char> {
    let m = pc % 12;
    if m == 0 {
        "C"@
    } else if m == 1 {
        "C#"@
    } else if m == 2 {
        "D"@
    } else if m == 3 {
        "D#"@
    } else if m == 4 {
        "E"@
    } else if m == 5 {
        "F"@
    } else if m == 6 {
        "F#"@
    } else if m == 7 {
        "G"@
    } else if m == 8 {
        "G#"@
    } else if m == 9 {
        "A"@
    } else if m == 10 {
        "A#"@
    } else {
        "B"@
    }
}

/// Map a pitch class to its sharps-only note name (`0 → "C"`, `1 → "C#"`,
/// …, `11 → "B"`), taking it modulo 12.
pub fn pc_to_note_name(pc: u8) -> (r: &'static str)
    ensures
        r@ == pc_name(pc),
{
    let m = pc % 12;
    if m == 0 {
        "C"
    } else if m == 1 {
        "C#"
    } else if m == 2 {
        "D"
    } else if m == 3 {
        "D#"
    } else if m == 4 {
        "E"
    } else if m == 5 {
        "F"
    } else if m == 6 {
        "F#"
    } else if m == 7 {
        "G"
    } else if m == 8 {
        "G#"
    } else if m == 9 {
        "A"
    } else if m == 10 {
        "A#"
    } else {
        "B"
    }
}

/// Four pitch classes spelled and joined by en-dashes.
pub open spec fn dashed(p: [u8; 4]) -> Seq<char> {
    pc_name(p[0]) + "–"@ + pc_name(p[1]) + "–"@ + pc_name(p[2]) + "–"@ + pc_name(p[3])
}

/// Spell four pitch classes joined by en-dashes.
fn render_dashed(p: [u8; 4]) -> (r: String)
    ensures
        r@ == dashed(p),
{
    let mut s = String::new();
    push_str(&mut s, pc_to_note_name(p[0]));
    push_str(&mut s, "–");
    push_str(&mut s, pc_to_note_name(p[1]));
    push_str(&mut s, "–");
    push_str(&mut s, pc_to_note_name(p[2]));
    push_str(&mut s, "–");
    push_str(&mut s, pc_to_note_name(p[3]));
    assert(s@ =~= dashed(p));
    s
}

/// Render the chord's pitch classes, in ascending order, as dashed note
/// names (e.g. `"C–D–G–A"` for `[0, 2, 7, 9]`).
pub fn render_pcset_dashed(chord: &PcChord) -> (r: String)
    ensures
        r@ == dashed(chord.pcs),
{
    render_dashed(chord.pcs)
}

/// The pitch classes read in the order of the `k`-th permutation.
pub open spec fn walk_at(pcs: [u8; 4], k: int) -> [u8; 4] {
    let (a, b, c, d) = perm4(k);
    [pcs[a], pcs[b], pcs[c], pcs[d]]
}

/// The forward interval from `x` to `y` modulo 12, for any byte values.
pub open spec fn step12(x: u8, y: u8) -> int {
    (y + 264 - x) % 12
}

/// The three forward intervals of a walk all lie in {6, 7, 8}.
pub open spec fn legal_walk(w: [u8; 4]) -> bool {
    6 <= step12(w[0], w[1]) <= 8 && 6 <= step12(w[1], w[2]) <= 8 && 6 <= step12(w[2], w[3]) <= 8
}

/// `a` precedes `b` lexicographically.
pub open spec fn lex_lt(a: [u8; 4], b: [u8; 4]) -> bool {
    a[0] < b[0] || (a[0] == b[0] && (a[1] < b[1] || (a[1] == b[1] && (a[2] < b[2] || (a[2] == b[2]
        && a[3] < b[3])))))
}

/// The lexicographically smallest legal walk among the first `k` permutations.
pub open spec fn least_walk(pcs: [u8; 4], k: int) -> Option<[u8; 4]>
    decreases k,
{
    if k <= 0 {
        None
    } else {
        let prev = least_walk(pcs, k - 1);
        let w = walk_at(pcs, k - 1);
        if legal_walk(w) && (prev is None || lex_lt(w, prev->0)) {
            Some(w)
        } else {
            prev
        }
    }
}

/// Whether a walk has all forward intervals in {6, 7, 8}.
fn is_legal_walk(w: [u8; 4]) -> (r: bool)
    ensures
        r == legal_walk(w),
{
    let i1 = (w[1] as u16 + 264 - w[0] as u16) % 12;
    let i2 = (w[2] as u16 + 264 - w[1] as u16) % 12;
    let i3 = (w[3] as u16 + 264 - w[2] as u16) % 12;
    6 <= i1 && i1 <= 8 && 6 <= i2 && i2 <= 8 && 6 <= i3 && i3 <= 8
}

/// Whether `a` precedes `b` lexicographically.
fn lex_less(a: [u8; 4], b: [u8; 4]) -> (r: bool)
    ensures
        r == lex_lt(a, b),
{
    a[0] < b[0] || (a[0] == b[0] && (a[1] < b[1] || (a[1] == b[1] && (a[2] < b[2] || (a[2] == b[2]
        && a[3] < b[3])))))
}

/// Render the chord in root chord form: its pitch classes ordered by the
/// lexicographically smallest of its walks whose forward intervals all lie
/// in {6, 7, 8} (so the smallest starting pitch class first), as dashed note
/// names (e.g. `"C–G–D–A"` for `[0, 2, 7, 9]`).
pub fn render_chord_dashed(chord: &PcChord) -> (r: String)
    requires
        least_walk(chord.pcs, 24) is Some,
    ensures
        r@ == dashed(least_walk(chord.pcs, 24)->0),
{
    let pcs = chord.pcs;
    let mut best: Option<[u8; 4]> = None;
    let mut k: usize = 0;
    while k < 24
        invariant
            0 <= k <= 24,
            pcs == chord.pcs,
            best == least_walk(pcs, k as int),
        decreases 24 - k,
    {
        let (a, b, c, d) = perm_at(k);
        let w: [u8; 4] = [pcs[a], pcs[b], pcs[c], pcs[d]];
        assert(w == walk_at(pcs, k as int));
        if is_legal_walk(w) {
            match best {
                None => {
                    best = Some(w);
                },
                Some(cur) => {
                    if lex_less(w, cur) {
                        best = Some(w);
                    }
                },
            }
        }
        k = k + 1;
    }
    match best {
        Some(w) => render_dashed(w),
        None => String::new(),
    }
}

} // verus!

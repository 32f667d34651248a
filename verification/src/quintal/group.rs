//! The transposition/inversion (T/I) group acting on pitch-class chords.

use vstd::prelude::*;

use super::types::{sort4, sorted4, PcChord};

verus! {

/// Each pitch class raised by `n` semitones, modulo 12.
pub open spec fn shift4(a: [u8; 4], n: u8) -> [u8; 4] {
    [
        ((a[0] + n) % 12) as u8,
        ((a[1] + n) % 12) as u8,
        ((a[2] + n) % 12) as u8,
        ((a[3] + n) % 12) as u8,
    ]
}

/// Each pitch class `p` mapped to `n - p`, modulo 12.
pub open spec fn reflect4(a: [u8; 4], n: u8) -> [u8; 4] {
    [
        ((n % 12 + 12 - a[0]) % 12) as u8,
        ((n % 12 + 12 - a[1]) % 12) as u8,
        ((n % 12 + 12 - a[2]) % 12) as u8,
        ((n % 12 + 12 - a[3]) % 12) as u8,
    ]
}

/// The chord transposed by `n` semitones.
pub open spec fn transpose_spec(c: PcChord, n: u8) -> PcChord {
    PcChord { pcs: sorted4(shift4(c.pcs, n)) }
}

/// The chord inverted about 0 and then transposed by `n` semitones.
pub open spec fn invert_transpose_spec(c: PcChord, n: u8) -> PcChord {
    PcChord { pcs: sorted4(reflect4(c.pcs, n)) }
}

/// The `k`-th element of the T/I orbit: `T_k` for `k < 12`, `T_{k-12} I` after.
pub open spec fn ti_image(c: PcChord, k: int) -> PcChord {
    if k < 12 {
        transpose_spec(c, k as u8)
    } else {
        invert_transpose_spec(c, (k - 12) as u8)
    }
}

/// The distinct images among the first `k` group elements, in order of first appearance.
pub open spec fn orbit_prefix(c: PcChord, k: int) -> Seq<PcChord>
    decreases k,
{
    if k <= 0 {
        seq![]
    } else {
        let prev = orbit_prefix(c, k - 1);
        if prev.contains(ti_image(c, k - 1)) {
            prev
        } else {
            prev.push(ti_image(c, k - 1))
        }
    }
}

/// The T/I orbit of a chord: its distinct images under the 24 group elements.
pub open spec fn orbit_spec(c: PcChord) -> Seq<PcChord> {
    orbit_prefix(c, 24)
}

/// Transpose a chord by `n` semitones.
pub fn transpose(chord: &PcChord, n: u8) -> (r: PcChord)
    ensures
        r == transpose_spec(*chord, n),
{
    let p = chord.pcs;
    let a: [u8; 4] = [
        ((p[0] as u16 + n as u16) % 12) as u8,
        ((p[1] as u16 + n as u16) % 12) as u8,
        ((p[2] as u16 + n as u16) % 12) as u8,
        ((p[3] as u16 + n as u16) % 12) as u8,
    ];
    assert(a =~= shift4(p, n));
    PcChord { pcs: sort4(a) }
}

/// Invert a chord about pitch class 0 (`p` becomes `-p` modulo 12).
pub fn invert(chord: &PcChord) -> (r: PcChord)
    requires
        chord.in_range(),
    ensures
        r == invert_transpose_spec(*chord, 0),
{
    invert_transpose(chord, 0)
}

/// Invert a chord about pitch class 0 and transpose the result by `n` semitones.
pub fn invert_transpose(chord: &PcChord, n: u8) -> (r: PcChord)
    requires
        chord.in_range(),
    ensures
        r == invert_transpose_spec(*chord, n),
{
    let p = chord.pcs;
    let m = (n % 12) as u16;
    let a: [u8; 4] = [
        ((m + 12 - p[0] as u16) % 12) as u8,
        ((m + 12 - p[1] as u16) % 12) as u8,
        ((m + 12 - p[2] as u16) % 12) as u8,
        ((m + 12 - p[3] as u16) % 12) as u8,
    ];
    assert(a =~= reflect4(p, n));
    PcChord { pcs: sort4(a) }
}

/// Tests whether a chord occurs in a list.
pub(crate) fn contains_chord(v: &Vec<PcChord>, c: &PcChord) -> (r: bool)
    ensures
        r == v@.contains(*c),
{
    let mut i: usize = 0;
    while i < v.len()
        invariant
            0 <= i <= v@.len(),
            forall|j: int| 0 <= j < i ==> v@[j] != *c,
        decreases v@.len() - i,
    {
        if v[i] == *c {
            return true;
        }
        i = i + 1;
    }
    false
}

/// The T/I orbit of a chord: its distinct images under the 12
/// transpositions and then the 12 inversions, in that order.
pub fn orbit(chord: &PcChord) -> (r: Vec<PcChord>)
    requires
        chord.in_range(),
    ensures
        r@ == orbit_spec(*chord),
{
    let mut out: Vec<PcChord> = Vec::new();
    let mut k: u8 = 0;
    while k < 24
        invariant
            0 <= k <= 24,
            chord.in_range(),
            out@ == orbit_prefix(*chord, k as int),
        decreases 24 - k,
    {
        let img = if k < 12 {
            transpose(chord, k)
        } else {
            invert_transpose(chord, k - 12)
        };
        if !contains_chord(&out, &img) {
            out.push(img);
        }
        k = k + 1;
    }
    out
}

/// Every orbit element is the image of the chord under some group element,
/// and every image lies in the orbit.
pub proof fn lemma_orbit_members(c: PcChord, k: int, x: PcChord)
    requires
        0 <= k <= 24,
    ensures
        orbit_prefix(c, k).contains(x) <==> exists|j: int| 0 <= j < k && ti_image(c, j) == x,
    decreases k,
{
    if k > 0 {
        lemma_orbit_members(c, k - 1, x);
        let prev = orbit_prefix(c, k - 1);
        if exists|j: int| 0 <= j < k && ti_image(c, j) == x {
            let j = choose|j: int| 0 <= j < k && ti_image(c, j) == x;
            if j < k - 1 {
                assert(prev.contains(x));
                if !prev.contains(ti_image(c, k - 1)) {
                    let i = choose|i: int| 0 <= i < prev.len() && prev[i] == x;
                    assert(orbit_prefix(c, k)[i] == x);
                }
            } else {
                if !prev.contains(ti_image(c, k - 1)) {
                    assert(orbit_prefix(c, k)[prev.len() as int] == x);
                }
            }
        }
        if orbit_prefix(c, k).contains(x) && !prev.contains(x) {
            assert(x == ti_image(c, k - 1));
        }
    }
}

} // verus!

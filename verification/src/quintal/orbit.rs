//! Orbit classification under the T/I group for quintal pitch-class chords.
//!
//! The 228 legal quintal chords partition into exactly 14 orbits under the
//! 24-element T/I group. Each orbit is identified by its representative
//! interval structure (e.g. Q777 for the "major analogue" orbit with
//! interval structure (7,7,7)).

use vstd::prelude::*;

use super::base_space::chord_in_base;
use super::classification::lemma_base_chord_classified;
use super::group::{contains_chord, orbit, orbit_spec};
use super::types::{sort4, sorted4, IntervalStructure, PcChord};
use crate::text::{dec, push_decimal, push_str};

verus! {

/// The 14 orbits of legal quintal chords under the T/I group.
///
/// Each variant is named `Q` followed by the three interval values of its
/// representative interval structure.
#[derive(Debug, Clone, Copy, PartialEq, Eq, Structural, Hash, PartialOrd, Ord)]
pub enum Orbit {
    /// (7,7,7) — size 12, degree 8, "major analogue"
    Q777,
    /// (7,6,7) — size 12, degree 4
    Q767,
    /// (7,8,7) — size 12, degree 8, "minor analogue"
    Q787,
    /// (6,7,6) — size 6, degree 4, "diminished analogue"
    Q676,
    /// (6,8,6) — size 6, degree 8, "augmented analogue"
    Q686,
    /// (8,7,8) — size 12, degree 4
    Q878,
    /// (8,6,8) — size 12, degree 4
    Q868,
    /// (7,7,6) — size 24, degree 5
    Q776,
    /// (8,7,7) — size 24, degree 6
    Q877,
    /// (8,6,7) — size 24, degree 4
    Q867,
    /// (8,7,6) — size 24, degree 5
    Q876,
    /// (7,8,8) — size 24, degree 4
    Q788,
    /// (7,8,6) — size 24, degree 6
    Q786,
    /// (6,8,8) — size 12, degree 6
    Q688,
}

/// All 14 orbits in declaration order.
pub open spec fn all_orbits() -> Seq<Orbit> {
    seq![
        Orbit::Q777,
        Orbit::Q767,
        Orbit::Q787,
        Orbit::Q676,
        Orbit::Q686,
        Orbit::Q878,
        Orbit::Q868,
        Orbit::Q776,
        Orbit::Q877,
        Orbit::Q867,
        Orbit::Q876,
        Orbit::Q788,
        Orbit::Q786,
        Orbit::Q688,
    ]
}

impl Orbit {
    /// The representative interval structure of the orbit.
    pub open spec fn rep_spec(self) -> IntervalStructure {
        match self {
            Orbit::Q777 => IntervalStructure(7, 7, 7),
            Orbit::Q767 => IntervalStructure(7, 6, 7),
            Orbit::Q787 => IntervalStructure(7, 8, 7),
            Orbit::Q676 => IntervalStructure(6, 7, 6),
            Orbit::Q686 => IntervalStructure(6, 8, 6),
            Orbit::Q878 => IntervalStructure(8, 7, 8),
            Orbit::Q868 => IntervalStructure(8, 6, 8),
            Orbit::Q776 => IntervalStructure(7, 7, 6),
            Orbit::Q877 => IntervalStructure(8, 7, 7),
            Orbit::Q867 => IntervalStructure(8, 6, 7),
            Orbit::Q876 => IntervalStructure(8, 7, 6),
            Orbit::Q788 => IntervalStructure(7, 8, 8),
            Orbit::Q786 => IntervalStructure(7, 8, 6),
            Orbit::Q688 => IntervalStructure(6, 8, 8),
        }
    }

    /// The number of chords in the orbit.
    pub open spec fn size_spec(self) -> usize {
        match self {
            Orbit::Q676 | Orbit::Q686 => 6,
            Orbit::Q777 | Orbit::Q767 | Orbit::Q787 | Orbit::Q878 | Orbit::Q868 | Orbit::Q688 => 12,
            _ => 24,
        }
    }

    /// The degree of every chord of the orbit in the base space.
    pub open spec fn degree_spec(self) -> usize {
        match self {
            Orbit::Q767 | Orbit::Q676 | Orbit::Q878 | Orbit::Q868 | Orbit::Q867 | Orbit::Q788 => 4,
            Orbit::Q776 | Orbit::Q876 => 5,
            Orbit::Q877 | Orbit::Q786 | Orbit::Q688 => 6,
            _ => 8,
        }
    }

    /// All 14 orbit variants in declaration order.
    pub fn all() -> (r: [Orbit; 14])
        ensures
            r@ == all_orbits(),
    {
        let r = [
            Orbit::Q777,
            Orbit::Q767,
            Orbit::Q787,
            Orbit::Q676,
            Orbit::Q686,
            Orbit::Q878,
            Orbit::Q868,
            Orbit::Q776,
            Orbit::Q877,
            Orbit::Q867,
            Orbit::Q876,
            Orbit::Q788,
            Orbit::Q786,
            Orbit::Q688,
        ];
        assert(r@ =~= all_orbits());
        r
    }

    /// The representative interval structure for this orbit.
    pub fn representative(&self) -> (r: IntervalStructure)
        ensures
            r == self.rep_spec(),
    {
        match self {
            Orbit::Q777 => IntervalStructure(7, 7, 7),
            Orbit::Q767 => IntervalStructure(7, 6, 7),
            Orbit::Q787 => IntervalStructure(7, 8, 7),
            Orbit::Q676 => IntervalStructure(6, 7, 6),
            Orbit::Q686 => IntervalStructure(6, 8, 6),
            Orbit::Q878 => IntervalStructure(8, 7, 8),
            Orbit::Q868 => IntervalStructure(8, 6, 8),
            Orbit::Q776 => IntervalStructure(7, 7, 6),
            Orbit::Q877 => IntervalStructure(8, 7, 7),
            Orbit::Q867 => IntervalStructure(8, 6, 7),
            Orbit::Q876 => IntervalStructure(8, 7, 6),
            Orbit::Q788 => IntervalStructure(7, 8, 8),
            Orbit::Q786 => IntervalStructure(7, 8, 6),
            Orbit::Q688 => IntervalStructure(6, 8, 8),
        }
    }

    /// The orbit size: 6, 12 or 24, determined by the stabilizer of its chords.
    pub fn size(&self) -> (r: usize)
        ensures
            r == self.size_spec(),
    {
        match self {
            Orbit::Q676 | Orbit::Q686 => 6,
            Orbit::Q777 | Orbit::Q767 | Orbit::Q787 | Orbit::Q878 | Orbit::Q868 | Orbit::Q688 => 12,
            Orbit::Q776 | Orbit::Q877 | Orbit::Q867 | Orbit::Q876 | Orbit::Q788 | Orbit::Q786 => 24,
        }
    }

    /// The degree of each chord of this orbit within the base space.
    pub fn degree(&self) -> (r: usize)
        ensures
            r == self.degree_spec(),
    {
        match self {
            Orbit::Q767 | Orbit::Q676 | Orbit::Q878 | Orbit::Q868 | Orbit::Q867 | Orbit::Q788 => 4,
            Orbit::Q776 | Orbit::Q876 => 5,
            Orbit::Q877 | Orbit::Q786 | Orbit::Q688 => 6,
            Orbit::Q777 | Orbit::Q787 | Orbit::Q686 => 8,
        }
    }

    /// The tonal analogy of the orbit, if it has one: major (Q777), minor
    /// (Q787), diminished (Q676) or augmented (Q686).
    pub fn analogy(&self) -> (r: Option<&'static str>)
        ensures
            r is Some <==> (*self == Orbit::Q777 || *self == Orbit::Q787 || *self == Orbit::Q676
                || *self == Orbit::Q686),
            *self == Orbit::Q777 ==> r == Some("major"),
            *self == Orbit::Q787 ==> r == Some("minor"),
            *self == Orbit::Q676 ==> r == Some("diminished"),
            *self == Orbit::Q686 ==> r == Some("augmented"),
    {
        match self {
            Orbit::Q777 => Some("major"),
            Orbit::Q787 => Some("minor"),
            Orbit::Q676 => Some("diminished"),
            Orbit::Q686 => Some("augmented"),
            _ => None,
        }
    }
}

/// The label of an orbit: `Q(a,b,c)` from its representative intervals,
/// followed by ` [analogy]` where the orbit has a tonal analogy.
pub open spec fn orbit_text(o: Orbit) -> Seq<char> {
    let is = o.rep_spec();
    let base = "Q("@ + dec(is.0 as nat) + ","@ + dec(is.1 as nat) + ","@ + dec(is.2 as nat) + ")"@;
    match o {
        Orbit::Q777 => base + " ["@ + "major"@ + "]"@,
        Orbit::Q787 => base + " ["@ + "minor"@ + "]"@,
        Orbit::Q676 => base + " ["@ + "diminished"@ + "]"@,
        Orbit::Q686 => base + " ["@ + "augmented"@ + "]"@,
        _ => base,
    }
}

/// Append the label of an orbit.
pub fn push_orbit(s: &mut String, o: Orbit)
    ensures
        final(s)@ == old(s)@ + orbit_text(o),
{
    let is = o.representative();
    push_str(s, "Q(");
    push_decimal(s, is.0 as u64);
    push_str(s, ",");
    push_decimal(s, is.1 as u64);
    push_str(s, ",");
    push_decimal(s, is.2 as u64);
    push_str(s, ")");
    match o.analogy() {
        Some(a) => {
            push_str(s, " [");
            push_str(s, a);
            push_str(s, "]");
        },
        None => {},
    }
    assert(s@ =~= old(s)@ + orbit_text(o));
}

impl Orbit {
    /// The label of the orbit, e.g. `Q(7,7,7) [major]` or `Q(7,6,7)`.
    pub fn to_string(&self) -> (r: String)
        ensures
            r@ == orbit_text(*self),
    {
        let mut s = String::new();
        push_orbit(&mut s, *self);
        assert(s@ =~= orbit_text(*self));
        s
    }
}

/// The chord obtained by stacking an orbit's representative intervals upward
/// from pitch class 0, sorted.
pub open spec fn rep_chord(orb: Orbit) -> PcChord {
    let is = orb.rep_spec();
    PcChord {
        pcs: sorted4(
            [0u8, (is.0 % 12) as u8, ((is.0 + is.1) % 12) as u8, ((is.0 + is.1 + is.2) % 12) as u8],
        ),
    }
}

/// The first orbit, from the `i`-th on in declaration order, whose
/// representative chord lies in the T/I orbit of `c`.
pub open spec fn classify_from(c: PcChord, i: int) -> Option<Orbit>
    decreases 14 - i,
{
    if i < 0 || i >= 14 {
        None
    } else if orbit_spec(c).contains(rep_chord(all_orbits()[i])) {
        Some(all_orbits()[i])
    } else {
        classify_from(c, i + 1)
    }
}

/// The orbit of a chord: the first orbit in declaration order whose
/// representative chord lies in the chord's T/I orbit.
pub open spec fn classify_spec(c: PcChord) -> Option<Orbit> {
    classify_from(c, 0)
}

/// Build the representative `PcChord` of an orbit by applying its interval
/// structure forward from pitch class 0.
fn orbit_representative(orb: Orbit) -> (r: PcChord)
    ensures
        r == rep_chord(orb),
{
    let is = orb.representative();
    let p0: u8 = 0;
    let p1 = (p0 + is.0) % 12;
    let p2 = (p1 + is.1) % 12;
    let p3 = (p2 + is.2) % 12;
    let pcs = [p0, p1, p2, p3];
    proof {
        assert(p2 == (is.0 + is.1) % 12);
        assert(p3 == (is.0 + is.1 + is.2) % 12);
        assert(pcs =~= [0u8, (is.0 % 12) as u8, ((is.0 + is.1) % 12) as u8, ((is.0 + is.1 + is.2) % 12) as u8]);
    }
    PcChord { pcs: sort4(pcs) }
}

/// Classify a chord into its orbit: computes the chord's T/I orbit and
/// returns the first of the 14 orbits whose representative chord lies in it;
/// `None` if none does (which does not happen for legal quintal chords).
pub fn classify_orbit(chord: &PcChord) -> (r: Option<Orbit>)
    requires
        chord.in_range(),
    ensures
        r == classify_spec(*chord),
        chord_in_base(*chord) ==> r is Some,
{
    proof {
        if chord_in_base(*chord) {
            lemma_base_chord_classified(*chord);
        }
    }
    let orbit_chords = orbit(chord);
    let all = Orbit::all();
    let mut i: usize = 0;
    while i < 14
        invariant
            0 <= i <= 14,
            all@ == all_orbits(),
            orbit_chords@ == orbit_spec(*chord),
            classify_spec(*chord) == classify_from(*chord, i as int),
        decreases 14 - i,
    {
        let orb = all[i];
        let rep = orbit_representative(orb);
        if contains_chord(&orbit_chords, &rep) {
            return Some(orb);
        }
        i = i + 1;
    }
    None
}

/// The classifiable chords among the first `n` of `chords` that fall in
/// orbit `orb`, in order.
pub open spec fn members_of(chords: Seq<PcChord>, orb: Orbit, n: int) -> Seq<PcChord>
    decreases n,
{
    if n <= 0 {
        seq![]
    } else {
        let prev = members_of(chords, orb, n - 1);
        if classify_spec(chords[n - 1]) == Some(orb) {
            prev.push(chords[n - 1])
        } else {
            prev
        }
    }
}

/// The partition of `chords` by orbit: each orbit, in declaration order,
/// with the chords that fall in it, for the orbits that receive at least one.
pub open spec fn partition_from(chords: Seq<PcChord>, i: int) -> Seq<(Orbit, Seq<PcChord>)>
    decreases 14 - i,
{
    if i < 0 || i >= 14 {
        seq![]
    } else {
        let rest = partition_from(chords, i + 1);
        let m = members_of(chords, all_orbits()[i], chords.len() as int);
        if m.len() > 0 {
            seq![(all_orbits()[i], m)] + rest
        } else {
            rest
        }
    }
}

/// The views of an orbit partition.
pub open spec fn partition_view(p: Seq<(Orbit, Vec<PcChord>)>) -> Seq<(Orbit, Seq<PcChord>)> {
    Seq::new(p.len(), |i: int| (p[i].0, p[i].1@))
}

/// Partition chords by orbit: each orbit in declaration order, paired with
/// the chords of `chords` (in their order) that belong to it. Orbits that
/// receive no chord, and chords that cannot be classified, are left out.
pub fn classify_all(chords: &[PcChord]) -> (r: Vec<(Orbit, Vec<PcChord>)>)
    requires
        forall|i: int| 0 <= i < chords@.len() ==> (#[trigger] chords@[i]).in_range(),
    ensures
        partition_view(r@) == partition_from(chords@, 0),
{
    let n = chords.len();
    let mut labels: Vec<Option<Orbit>> = Vec::new();
    let mut j: usize = 0;
    while j < n
        invariant
            0 <= j <= n,
            n == chords@.len(),
            forall|i: int| 0 <= i < chords@.len() ==> (#[trigger] chords@[i]).in_range(),
            labels@.len() == j,
            forall|i: int| 0 <= i < j ==> #[trigger] labels@[i] == classify_spec(chords@[i]),
        decreases n - j,
    {
        labels.push(classify_orbit(&chords[j]));
        j = j + 1;
    }
    let all = Orbit::all();
    let mut out: Vec<(Orbit, Vec<PcChord>)> = Vec::new();
    let mut i: usize = 14;
    while i > 0
        invariant
            0 <= i <= 14,
            n == chords@.len(),
            all@ == all_orbits(),
            labels@.len() == n,
            forall|x: int| 0 <= x < n ==> #[trigger] labels@[x] == classify_spec(chords@[x]),
            partition_view(out@) == partition_from(chords@, i as int),
        decreases i,
    {
        i = i - 1;
        let orb = all[i];
        let mut members: Vec<PcChord> = Vec::new();
        let mut x: usize = 0;
        while x < n
            invariant
                0 <= x <= n,
                n == chords@.len(),
                labels@.len() == n,
                forall|y: int| 0 <= y < n ==> #[trigger] labels@[y] == classify_spec(chords@[y]),
                members@ == members_of(chords@, orb, x as int),
            decreases n - x,
        {
            if labels[x] == Some(orb) {
                members.push(chords[x]);
            }
            x = x + 1;
        }
        if members.len() > 0 {
            let ghost before = out@;
            let mut next: Vec<(Orbit, Vec<PcChord>)> = Vec::new();
            next.push((orb, members));
            let ghost head = next@;
            next.append(&mut out);
            out = next;
            proof {
                assert(partition_view(out@) =~= partition_view(head) + partition_view(before));
            }
        }
    }
    out
}

/// The sum of the sizes of the orbits from the `i`-th on.
pub open spec fn sizes_from(i: int) -> int
    decreases 14 - i,
{
    if i < 0 || i >= 14 {
        0
    } else {
        all_orbits()[i].size_spec() + sizes_from(i + 1)
    }
}

/// The orbit sizes add up to the 228 chords of the base space.
pub proof fn lemma_orbit_sizes_sum()
    ensures
        sizes_from(0) == 228,
{
    reveal_with_fuel(sizes_from, 15);
}

} // verus!

//! Quartal orbit classification: the 14 T/I orbits labeled with quartal
//! interval structures. Each quartal orbit corresponds to one quintal
//! [`Orbit`]; its label reverses and complements the quintal structure.

use vstd::prelude::*;

use super::interval::reverse_complement;
use super::types::QuartalIntervalStructure;
use crate::quintal::orbit::Orbit;
use crate::text::push_str;

verus! {

/// The 14 orbits of legal quartal chords under the T/I group, labeled with
/// quartal interval structures (4 = diminished, 5 = perfect, 6 = augmented fourth).
#[derive(Debug, Clone, Copy, PartialEq, Eq, Structural, Hash, PartialOrd, Ord)]
pub enum QuartalOrbit {
    /// (5,5,5) — size 12, degree 8, "major analogue" (quintal Q777)
    Q555,
    /// (5,6,5) — size 12, degree 4 (quintal Q767)
    Q565,
    /// (5,4,5) — size 12, degree 8, "minor analogue" (quintal Q787)
    Q545,
    /// (6,5,6) — size 6, degree 4, "diminished analogue" (quintal Q676)
    Q656,
    /// (6,4,6) — size 6, degree 8, "augmented analogue" (quintal Q686)
    Q646,
    /// (4,5,4) — size 12, degree 4 (quintal Q878)
    Q454,
    /// (4,6,4) — size 12, degree 4 (quintal Q868)
    Q464,
    /// (6,5,5) — size 24, degree 5 (quintal Q776)
    Q655,
    /// (5,5,4) — size 24, degree 6 (quintal Q877)
    Q554,
    /// (5,6,4) — size 24, degree 4 (quintal Q867)
    Q564,
    /// (6,5,4) — size 24, degree 5 (quintal Q876)
    Q654,
    /// (4,4,5) — size 24, degree 4 (quintal Q788)
    Q445,
    /// (6,4,5) — size 24, degree 6 (quintal Q786)
    Q645,
    /// (4,4,6) — size 12, degree 6 (quintal Q688)
    Q446,
}

/// All 14 quartal orbits in declaration order.
pub open spec fn all_quartal_orbits() -> Seq<QuartalOrbit> {
    seq![
        QuartalOrbit::Q555,
        QuartalOrbit::Q565,
        QuartalOrbit::Q545,
        QuartalOrbit::Q656,
        QuartalOrbit::Q646,
        QuartalOrbit::Q454,
        QuartalOrbit::Q464,
        QuartalOrbit::Q655,
        QuartalOrbit::Q554,
        QuartalOrbit::Q564,
        QuartalOrbit::Q654,
        QuartalOrbit::Q445,
        QuartalOrbit::Q645,
        QuartalOrbit::Q446,
    ]
}

/// The quartal orbit of a quintal orbit.
pub open spec fn from_quintal_spec(o: Orbit) -> QuartalOrbit {
    match o {
        Orbit::Q777 => QuartalOrbit::Q555,
        Orbit::Q767 => QuartalOrbit::Q565,
        Orbit::Q787 => QuartalOrbit::Q545,
        Orbit::Q676 => QuartalOrbit::Q656,
        Orbit::Q686 => QuartalOrbit::Q646,
        Orbit::Q878 => QuartalOrbit::Q454,
        Orbit::Q868 => QuartalOrbit::Q464,
        Orbit::Q776 => QuartalOrbit::Q655,
        Orbit::Q877 => QuartalOrbit::Q554,
        Orbit::Q867 => QuartalOrbit::Q564,
        Orbit::Q876 => QuartalOrbit::Q654,
        Orbit::Q788 => QuartalOrbit::Q445,
        Orbit::Q786 => QuartalOrbit::Q645,
        Orbit::Q688 => QuartalOrbit::Q446,
    }
}

/// The quintal orbit of a quartal orbit.
pub open spec fn to_quintal_spec(q: QuartalOrbit) -> Orbit {
    match q {
        QuartalOrbit::Q555 => Orbit::Q777,
        QuartalOrbit::Q565 => Orbit::Q767,
        QuartalOrbit::Q545 => Orbit::Q787,
        QuartalOrbit::Q656 => Orbit::Q676,
        QuartalOrbit::Q646 => Orbit::Q686,
        QuartalOrbit::Q454 => Orbit::Q878,
        QuartalOrbit::Q464 => Orbit::Q868,
        QuartalOrbit::Q655 => Orbit::Q776,
        QuartalOrbit::Q554 => Orbit::Q877,
        QuartalOrbit::Q564 => Orbit::Q867,
        QuartalOrbit::Q654 => Orbit::Q876,
        QuartalOrbit::Q445 => Orbit::Q788,
        QuartalOrbit::Q645 => Orbit::Q786,
        QuartalOrbit::Q446 => Orbit::Q688,
    }
}

/// The representative quartal interval structure of a quartal orbit.
pub open spec fn quartal_rep_spec(q: QuartalOrbit) -> QuartalIntervalStructure {
    match q {
        QuartalOrbit::Q555 => QuartalIntervalStructure(5, 5, 5),
        QuartalOrbit::Q565 => QuartalIntervalStructure(5, 6, 5),
        QuartalOrbit::Q545 => QuartalIntervalStructure(5, 4, 5),
        QuartalOrbit::Q656 => QuartalIntervalStructure(6, 5, 6),
        QuartalOrbit::Q646 => QuartalIntervalStructure(6, 4, 6),
        QuartalOrbit::Q454 => QuartalIntervalStructure(4, 5, 4),
        QuartalOrbit::Q464 => QuartalIntervalStructure(4, 6, 4),
        QuartalOrbit::Q655 => QuartalIntervalStructure(6, 5, 5),
        QuartalOrbit::Q554 => QuartalIntervalStructure(5, 5, 4),
        QuartalOrbit::Q564 => QuartalIntervalStructure(5, 6, 4),
        QuartalOrbit::Q654 => QuartalIntervalStructure(6, 5, 4),
        QuartalOrbit::Q445 => QuartalIntervalStructure(4, 4, 5),
        QuartalOrbit::Q645 => QuartalIntervalStructure(6, 4, 5),
        QuartalOrbit::Q446 => QuartalIntervalStructure(4, 4, 6),
    }
}

impl QuartalOrbit {
    /// All 14 quartal orbit variants in declaration order.
    pub fn all() -> (r: [QuartalOrbit; 14])
        ensures
            r@ == all_quartal_orbits(),
    {
        let r = [
            QuartalOrbit::Q555,
            QuartalOrbit::Q565,
            QuartalOrbit::Q545,
            QuartalOrbit::Q656,
            QuartalOrbit::Q646,
            QuartalOrbit::Q454,
            QuartalOrbit::Q464,
            QuartalOrbit::Q655,
            QuartalOrbit::Q554,
            QuartalOrbit::Q564,
            QuartalOrbit::Q654,
            QuartalOrbit::Q445,
            QuartalOrbit::Q645,
            QuartalOrbit::Q446,
        ];
        assert(r@ =~= all_quartal_orbits());
        r
    }

    /// The representative quartal interval structure for this orbit.
    pub fn representative(&self) -> (r: QuartalIntervalStructure)
        ensures
            r == quartal_rep_spec(*self),
    {
        match self {
            QuartalOrbit::Q555 => QuartalIntervalStructure(5, 5, 5),
            QuartalOrbit::Q565 => QuartalIntervalStructure(5, 6, 5),
            QuartalOrbit::Q545 => QuartalIntervalStructure(5, 4, 5),
            QuartalOrbit::Q656 => QuartalIntervalStructure(6, 5, 6),
            QuartalOrbit::Q646 => QuartalIntervalStructure(6, 4, 6),
            QuartalOrbit::Q454 => QuartalIntervalStructure(4, 5, 4),
            QuartalOrbit::Q464 => QuartalIntervalStructure(4, 6, 4),
            QuartalOrbit::Q655 => QuartalIntervalStructure(6, 5, 5),
            QuartalOrbit::Q554 => QuartalIntervalStructure(5, 5, 4),
            QuartalOrbit::Q564 => QuartalIntervalStructure(5, 6, 4),
            QuartalOrbit::Q654 => QuartalIntervalStructure(6, 5, 4),
            QuartalOrbit::Q445 => QuartalIntervalStructure(4, 4, 5),
            QuartalOrbit::Q645 => QuartalIntervalStructure(6, 4, 5),
            QuartalOrbit::Q446 => QuartalIntervalStructure(4, 4, 6),
        }
    }

    /// The orbit size: that of the corresponding quintal orbit.
    pub fn size(&self) -> (r: usize)
        ensures
            r == to_quintal_spec(*self).size_spec(),
    {
        self.to_quintal().size()
    }

    /// The degree of each chord of this orbit: that of the corresponding quintal orbit.
    pub fn degree(&self) -> (r: usize)
        ensures
            r == to_quintal_spec(*self).degree_spec(),
    {
        self.to_quintal().degree()
    }

    /// The tonal analogy of the orbit, if any: major (Q555), minor (Q545),
    /// diminished (Q656) or augmented (Q646).
    pub fn analogy(&self) -> (r: Option<&'static str>)
        ensures
            r is Some <==> (*self == QuartalOrbit::Q555 || *self == QuartalOrbit::Q545 || *self
                == QuartalOrbit::Q656 || *self == QuartalOrbit::Q646),
            *self == QuartalOrbit::Q555 ==> r == Some("major"),
            *self == QuartalOrbit::Q545 ==> r == Some("minor"),
            *self == QuartalOrbit::Q656 ==> r == Some("diminished"),
            *self == QuartalOrbit::Q646 ==> r == Some("augmented"),
    {
        match self {
            QuartalOrbit::Q555 => Some("major"),
            QuartalOrbit::Q545 => Some("minor"),
            QuartalOrbit::Q656 => Some("diminished"),
            QuartalOrbit::Q646 => Some("augmented"),
            _ => None,
        }
    }

    /// The quartal counterpart of a quintal orbit.
    pub fn from_quintal(orbit: &Orbit) -> (r: QuartalOrbit)
        ensures
            r == from_quintal_spec(*orbit),
    {
        match orbit {
            Orbit::Q777 => QuartalOrbit::Q555,
            Orbit::Q767 => QuartalOrbit::Q565,
            Orbit::Q787 => QuartalOrbit::Q545,
            Orbit::Q676 => QuartalOrbit::Q656,
            Orbit::Q686 => QuartalOrbit::Q646,
            Orbit::Q878 => QuartalOrbit::Q454,
            Orbit::Q868 => QuartalOrbit::Q464,
            Orbit::Q776 => QuartalOrbit::Q655,
            Orbit::Q877 => QuartalOrbit::Q554,
            Orbit::Q867 => QuartalOrbit::Q564,
            Orbit::Q876 => QuartalOrbit::Q654,
            Orbit::Q788 => QuartalOrbit::Q445,
            Orbit::Q786 => QuartalOrbit::Q645,
            Orbit::Q688 => QuartalOrbit::Q446,
        }
    }

    /// The quintal counterpart of this quartal orbit.
    pub fn to_quintal(&self) -> (r: Orbit)
        ensures
            r == to_quintal_spec(*self),
    {
        match self {
            QuartalOrbit::Q555 => Orbit::Q777,
            QuartalOrbit::Q565 => Orbit::Q767,
            QuartalOrbit::Q545 => Orbit::Q787,
            QuartalOrbit::Q656 => Orbit::Q676,
            QuartalOrbit::Q646 => Orbit::Q686,
            QuartalOrbit::Q454 => Orbit::Q878,
            QuartalOrbit::Q464 => Orbit::Q868,
            QuartalOrbit::Q655 => Orbit::Q776,
            QuartalOrbit::Q554 => Orbit::Q877,
            QuartalOrbit::Q564 => Orbit::Q867,
            QuartalOrbit::Q654 => Orbit::Q876,
            QuartalOrbit::Q445 => Orbit::Q788,
            QuartalOrbit::Q645 => Orbit::Q786,
            QuartalOrbit::Q446 => Orbit::Q688,
        }
    }
}

/// The quintal and quartal orbit labels correspond one to one: each
/// conversion undoes the other.
pub proof fn lemma_orbit_bijection(o: Orbit, q: QuartalOrbit)
    ensures
        to_quintal_spec(from_quintal_spec(o)) == o,
        from_quintal_spec(to_quintal_spec(q)) == q,
{
}

/// The quartal label of each orbit is the reversed complement of the
/// quintal representative structure.
pub proof fn lemma_labels_reverse_complement(q: QuartalOrbit)
    ensures
        quartal_rep_spec(q) == reverse_complement(to_quintal_spec(q).rep_spec()),
{
}


/// The name of a fourth of `semitones` semitones: `d4`, `P4`, `A4`, or `??`.
pub open spec fn fourth_name(semitones: u8) -> Seq<char> {
    if semitones == 4 {
        "d4"@
    } else if semitones == 5 {
        "P4"@
    } else if semitones == 6 {
        "A4"@
    } else {
        "??"@
    }
}

fn fourth_name_str(semitones: u8) -> (r: &'static str)
    ensures
        r@ == fourth_name(semitones),
{
    if semitones == 4 {
        "d4"
    } else if semitones == 5 {
        "P4"
    } else if semitones == 6 {
        "A4"
    } else {
        "??"
    }
}

/// The label of a quartal orbit: its representative fourths, e.g.
/// `[P4,P4,P4]`, followed by ` [analogy]` where it has one.
pub open spec fn quartal_orbit_text(o: QuartalOrbit) -> Seq<char> {
    let is = quartal_rep_spec(o);
    let base = "["@ + fourth_name(is.0) + ","@ + fourth_name(is.1) + ","@ + fourth_name(is.2) + "]"@;
    match o {
        QuartalOrbit::Q555 => base + " ["@ + "major"@ + "]"@,
        QuartalOrbit::Q545 => base + " ["@ + "minor"@ + "]"@,
        QuartalOrbit::Q656 => base + " ["@ + "diminished"@ + "]"@,
        QuartalOrbit::Q646 => base + " ["@ + "augmented"@ + "]"@,
        _ => base,
    }
}

impl QuartalOrbit {
    /// The label of the orbit, e.g. `[P4,P4,P4] [major]` or `[P4,A4,P4]`.
    pub fn to_string(&self) -> (r: String)
        ensures
            r@ == quartal_orbit_text(*self),
    {
        let is = self.representative();
        let mut s = String::new();
        push_str(&mut s, "[");
        push_str(&mut s, fourth_name_str(is.0));
        push_str(&mut s, ",");
        push_str(&mut s, fourth_name_str(is.1));
        push_str(&mut s, ",");
        push_str(&mut s, fourth_name_str(is.2));
        push_str(&mut s, "]");
        match self.analogy() {
            Some(a) => {
                push_str(&mut s, " [");
                push_str(&mut s, a);
                push_str(&mut s, "]");
            },
            None => {},
        }
        assert(s@ =~= quartal_orbit_text(*self));
        s
    }
}

} // verus!

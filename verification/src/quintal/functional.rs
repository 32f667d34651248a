//! OTH functional regions and canonical pathways.
//!
//! The 14 T/I orbits map to seven functional regions named after natural
//! landforms. Two canonical pathways (Cadence and Departure) define
//! recognized harmonic motions through this terrain.

use vstd::prelude::*;

use crate::text::push_str;

use super::orbit::Orbit;

verus! {

/// The seven OTH functional regions.
#[derive(Debug, Clone, Copy, PartialEq, Eq, Structural, Hash, PartialOrd, Ord)]
pub enum FunctionalRegion {
    /// Q777. Maximum stability.
    Summit,
    /// Q787, Q877. Stable but not the apex.
    Plateau,
    /// Q786, Q776, Q876, Q867. Transitional terrain.
    Slope,
    /// Q767, Q868, Q878. Maximum tension, minimum connectivity.
    Valley,
    /// Q686. Structural dominant, T6-symmetric pivot.
    Saddle,
    /// Q688, Q788. Edge of stability.
    Precipice,
    /// Q676. Most constrained orbit.
    Narrows,
}

impl FunctionalRegion {
    /// The region's name.
    pub fn to_string(&self) -> (r: String)
        ensures
            *self == FunctionalRegion::Summit ==> r@ == "Summit"@,
            *self == FunctionalRegion::Plateau ==> r@ == "Plateau"@,
            *self == FunctionalRegion::Slope ==> r@ == "Slope"@,
            *self == FunctionalRegion::Valley ==> r@ == "Valley"@,
            *self == FunctionalRegion::Saddle ==> r@ == "Saddle"@,
            *self == FunctionalRegion::Precipice ==> r@ == "Precipice"@,
            *self == FunctionalRegion::Narrows ==> r@ == "Narrows"@,
    {
        let mut s = String::new();
        match self {
            FunctionalRegion::Summit => push_str(&mut s, "Summit"),
            FunctionalRegion::Plateau => push_str(&mut s, "Plateau"),
            FunctionalRegion::Slope => push_str(&mut s, "Slope"),
            FunctionalRegion::Valley => push_str(&mut s, "Valley"),
            FunctionalRegion::Saddle => push_str(&mut s, "Saddle"),
            FunctionalRegion::Precipice => push_str(&mut s, "Precipice"),
            FunctionalRegion::Narrows => push_str(&mut s, "Narrows"),
        }
        s
    }
}

/// The functional region of an orbit.
pub open spec fn region_of(o: Orbit) -> FunctionalRegion {
    match o {
        Orbit::Q777 => FunctionalRegion::Summit,
        Orbit::Q787 | Orbit::Q877 => FunctionalRegion::Plateau,
        Orbit::Q786 | Orbit::Q776 | Orbit::Q876 | Orbit::Q867 => FunctionalRegion::Slope,
        Orbit::Q767 | Orbit::Q868 | Orbit::Q878 => FunctionalRegion::Valley,
        Orbit::Q686 => FunctionalRegion::Saddle,
        Orbit::Q688 | Orbit::Q788 => FunctionalRegion::Precipice,
        Orbit::Q676 => FunctionalRegion::Narrows,
    }
}

impl Orbit {
    /// The functional region this orbit belongs to.
    pub fn functional_region(&self) -> (r: FunctionalRegion)
        ensures
            r == region_of(*self),
    {
        match self {
            Orbit::Q777 => FunctionalRegion::Summit,
            Orbit::Q787 | Orbit::Q877 => FunctionalRegion::Plateau,
            Orbit::Q786 | Orbit::Q776 | Orbit::Q876 | Orbit::Q867 => FunctionalRegion::Slope,
            Orbit::Q767 | Orbit::Q868 | Orbit::Q878 => FunctionalRegion::Valley,
            Orbit::Q686 => FunctionalRegion::Saddle,
            Orbit::Q688 | Orbit::Q788 => FunctionalRegion::Precipice,
            Orbit::Q676 => FunctionalRegion::Narrows,
        }
    }
}

/// A canonical OTH functional pathway.
#[derive(Debug, Clone, Copy, PartialEq, Eq, Structural, Hash)]
pub enum Pathway {
    /// Saddle → Slope → Summit.
    Cadence,
    /// Summit → Plateau → Slope → Saddle.
    Departure,
}

/// The region sequence of a pathway.
pub open spec fn pathway_regions(p: Pathway) -> Seq<FunctionalRegion> {
    match p {
        Pathway::Cadence => seq![
            FunctionalRegion::Saddle,
            FunctionalRegion::Slope,
            FunctionalRegion::Summit,
        ],
        Pathway::Departure => seq![
            FunctionalRegion::Summit,
            FunctionalRegion::Plateau,
            FunctionalRegion::Slope,
            FunctionalRegion::Saddle,
        ],
    }
}

/// All canonical pathways, in declaration order.
pub open spec fn all_pathways() -> Seq<Pathway> {
    seq![Pathway::Cadence, Pathway::Departure]
}

impl Pathway {
    /// The functional-region sequence this pathway represents.
    pub fn region_sequence(&self) -> (r: Vec<FunctionalRegion>)
        ensures
            r@ == pathway_regions(*self),
    {
        match self {
            Pathway::Cadence => {
                let r = vec![
                    FunctionalRegion::Saddle,
                    FunctionalRegion::Slope,
                    FunctionalRegion::Summit,
                ];
                assert(r@ =~= pathway_regions(*self));
                r
            },
            Pathway::Departure => {
                let r = vec![
                    FunctionalRegion::Summit,
                    FunctionalRegion::Plateau,
                    FunctionalRegion::Slope,
                    FunctionalRegion::Saddle,
                ];
                assert(r@ =~= pathway_regions(*self));
                r
            },
        }
    }

    /// All canonical pathways: Cadence, then Departure.
    pub fn all() -> (r: [Pathway; 2])
        ensures
            r@ == all_pathways(),
    {
        let r = [Pathway::Cadence, Pathway::Departure];
        assert(r@ =~= all_pathways());
        r
    }

    /// The pathway's name.
    pub fn to_string(&self) -> (r: String)
        ensures
            *self == Pathway::Cadence ==> r@ == "Cadence"@,
            *self == Pathway::Departure ==> r@ == "Departure"@,
    {
        let mut s = String::new();
        match self {
            Pathway::Cadence => push_str(&mut s, "Cadence"),
            Pathway::Departure => push_str(&mut s, "Departure"),
        }
        s
    }
}

} // verus!

//! Functional pathway matching and trajectory classification for
//! harmonizations: which canonical OTH pathways occur in a progression, and
//! the shape of its degree sequence.

use vstd::prelude::*;

use crate::text::push_str;

use super::types::Harmonization;
use crate::quintal::functional::{all_pathways, pathway_regions, region_of, FunctionalRegion, Pathway};
use crate::quintal::orbit::{classify_orbit, classify_spec, Orbit};
use crate::quintal::types::VoicedChord;

verus! {

/// A canonical pathway found within a progression, at positions
/// `start_position..=end_position`.
#[derive(Debug, Clone, Copy, PartialEq, Eq, Structural)]
pub struct MatchedPathway {
    /// Which canonical pathway matched.
    pub pathway: Pathway,
    /// First position of the match (inclusive).
    pub start_position: usize,
    /// Last position of the match (inclusive).
    pub end_position: usize,
}

/// The functional region of a voiced chord, when it projects to a chord
/// that can be classified.
pub open spec fn region_at(vc: VoicedChord) -> Option<FunctionalRegion> {
    match vc.to_pc_result() {
        Ok(pc) => match classify_spec(pc) {
            Some(o) => Some(region_of(o)),
            None => None,
        },
        Err(_) => None,
    }
}

/// The functional regions of a progression.
pub open spec fn regions_of(chords: Seq<VoicedChord>) -> Seq<Option<FunctionalRegion>> {
    chords.map_values(|vc: VoicedChord| region_at(vc))
}

/// The pattern occurs in the regions at position `i`.
pub open spec fn occurs_at(regions: Seq<Option<FunctionalRegion>>, pattern: Seq<FunctionalRegion>, i: int) -> bool {
    forall|j: int| 0 <= j < pattern.len() ==> #[trigger] regions[i + j] == Some(pattern[j])
}

/// The matches of a pathway at the positions below `m`, in order.
pub open spec fn matches_below(regions: Seq<Option<FunctionalRegion>>, p: Pathway, m: int) -> Seq<MatchedPathway>
    decreases m,
{
    if m <= 0 {
        seq![]
    } else {
        let prev = matches_below(regions, p, m - 1);
        let pat = pathway_regions(p);
        if m - 1 + pat.len() <= regions.len() && occurs_at(regions, pat, m - 1) {
            prev.push(MatchedPathway {
                pathway: p,
                start_position: (m - 1) as usize,
                end_position: (m - 1 + pat.len() - 1) as usize,
            })
        } else {
            prev
        }
    }
}

/// The matches of the first `n` canonical pathways, pathway by pathway.
pub open spec fn all_matches(regions: Seq<Option<FunctionalRegion>>, n: int) -> Seq<MatchedPathway>
    decreases n,
{
    if n <= 0 {
        seq![]
    } else {
        let p = all_pathways()[n - 1];
        all_matches(regions, n - 1) + if pathway_regions(p).len() > regions.len() {
            seq![]
        } else {
            matches_below(regions, p, regions.len() - pathway_regions(p).len() + 1)
        }
    }
}

/// The functional region of a voiced chord, if it projects and classifies.
fn region_of_chord(vc: &VoicedChord) -> (r: Option<FunctionalRegion>)
    ensures
        r == region_at(*vc),
{
    match vc.to_pc_chord() {
        Ok(pc) => match classify_orbit(&pc) {
            Some(orb) => Some(orb.functional_region()),
            None => None,
        },
        Err(_) => None,
    }
}

/// Find every canonical OTH pathway (Cadence, then Departure) that occurs
/// as a contiguous run of the functional regions of a harmonization's
/// chords, at every position where it occurs.
pub fn match_functional_pathways(harmonization: &Harmonization) -> (r: Vec<MatchedPathway>)
    ensures
        r@ == all_matches(regions_of(harmonization.chords@), 2),
{
    let chords = &harmonization.chords;
    let mut regions: Vec<Option<FunctionalRegion>> = Vec::new();
    let mut x: usize = 0;
    while x < chords.len()
        invariant
            0 <= x <= chords@.len(),
            regions@ == regions_of(chords@).subrange(0, x as int),
        decreases chords@.len() - x,
    {
        regions.push(region_of_chord(&chords[x]));
        proof {
            assert(regions@ =~= regions_of(chords@).subrange(0, x + 1));
        }
        x = x + 1;
    }
    assert(regions@ =~= regions_of(chords@));
    let ghost rv = regions@;
    let all = Pathway::all();
    let mut matches: Vec<MatchedPathway> = Vec::new();
    let mut a: usize = 0;
    while a < 2
        invariant
            0 <= a <= 2,
            all@ == all_pathways(),
            regions@ == rv,
            matches@ == all_matches(rv, a as int),
        decreases 2 - a,
    {
        let pathway = all[a];
        let pattern = pathway.region_sequence();
        let ghost before = matches@;
        if pattern.len() <= regions.len() {
            let limit = regions.len() - pattern.len();
            let mut i: usize = 0;
            let mut found: Vec<MatchedPathway> = Vec::new();
            while i <= limit
                invariant
                    0 <= i <= limit + 1,
                    pattern@.len() >= 3,
                    rv.len() <= usize::MAX,
                    limit == rv.len() - pattern@.len(),
                    pattern@ == pathway_regions(pathway),
                    regions@ == rv,
                    found@ == matches_below(rv, pathway, i as int),
                decreases limit + 1 - i,
            {
                let mut ok = true;
                let mut j: usize = 0;
                while j < pattern.len()
                    invariant
                        0 <= j <= pattern@.len(),
                        i <= limit,
                        rv.len() <= usize::MAX,
                        limit == rv.len() - pattern@.len(),
                        regions@ == rv,
                        ok == (forall|t: int| 0 <= t < j ==> #[trigger] rv[i + t] == Some(pattern@[t])),
                    decreases pattern@.len() - j,
                {
                    if regions[i + j] != Some(pattern[j]) {
                        ok = false;
                    }
                    j = j + 1;
                }
                if ok {
                    found.push(MatchedPathway {
                        pathway,
                        start_position: i,
                        end_position: i + pattern.len() - 1,
                    });
                }
                i = i + 1;
            }
            let ghost f = found@;
            matches.append(&mut found);
            proof {
                assert(matches@ =~= before + f);
            }
        } else {
            proof {
                assert(matches@ =~= before + seq![]);
            }
        }
        a = a + 1;
    }
    matches
}

/// The shape of a progression's degree trajectory.
#[derive(Debug, Clone, Copy, PartialEq, Eq, Structural)]
pub enum Trajectory {
    /// Degrees non-decreasing and not all equal.
    Ascent,
    /// Degrees non-increasing and not all equal.
    Descent,
    /// All degrees equal.
    Traverse,
    /// Neither monotonic nor constant.
    Mixed,
}

impl Trajectory {
    /// The trajectory's name.
    pub fn to_string(&self) -> (r: String)
        ensures
            *self == Trajectory::Ascent ==> r@ == "Ascent"@,
            *self == Trajectory::Descent ==> r@ == "Descent"@,
            *self == Trajectory::Traverse ==> r@ == "Traverse"@,
            *self == Trajectory::Mixed ==> r@ == "Mixed"@,
    {
        let mut s = String::new();
        match self {
            Trajectory::Ascent => push_str(&mut s, "Ascent"),
            Trajectory::Descent => push_str(&mut s, "Descent"),
            Trajectory::Traverse => push_str(&mut s, "Traverse"),
            Trajectory::Mixed => push_str(&mut s, "Mixed"),
        }
        s
    }
}

/// The chord projects to a pitch-class chord that falls in one of the orbits.
pub open spec fn classifiable(vc: VoicedChord) -> bool {
    vc.to_pc_result() is Ok && classify_spec(vc.to_pc_result()->Ok_0) is Some
}

/// The degree of a classifiable chord's orbit.
pub open spec fn degree_at(vc: VoicedChord) -> usize {
    classify_spec(vc.to_pc_result()->Ok_0)->0.degree_spec()
}

/// The trajectory of a degree sequence.
pub open spec fn trajectory_of(d: Seq<usize>) -> Trajectory {
    if d.len() <= 1 || (forall|i: int| 0 <= i < d.len() - 1 ==> #[trigger] d[i] == d[i + 1]) {
        Trajectory::Traverse
    } else if forall|i: int| 0 <= i < d.len() - 1 ==> #[trigger] d[i] <= d[i + 1] {
        Trajectory::Ascent
    } else if forall|i: int| 0 <= i < d.len() - 1 ==> #[trigger] d[i] >= d[i + 1] {
        Trajectory::Descent
    } else {
        Trajectory::Mixed
    }
}

/// The degree of each chord's orbit, in order.
fn chord_degrees(chords: &Vec<VoicedChord>) -> (r: Vec<usize>)
    requires
        forall|i: int| 0 <= i < chords@.len() ==> classifiable(#[trigger] chords@[i]),
    ensures
        r@ == chords@.map_values(|vc: VoicedChord| degree_at(vc)),
{
    let ghost dspec = chords@.map_values(|vc: VoicedChord| degree_at(vc));
    let mut degrees: Vec<usize> = Vec::new();
    let mut x: usize = 0;
    while x < chords.len()
        invariant
            0 <= x <= chords@.len(),
            dspec == chords@.map_values(|vc: VoicedChord| degree_at(vc)),
            forall|i: int| 0 <= i < chords@.len() ==> classifiable(#[trigger] chords@[i]),
            degrees@ == dspec.subrange(0, x as int),
        decreases chords@.len() - x,
    {
        proof {
            assert(classifiable(chords@[x as int]));
        }
        let d = match chords[x].to_pc_chord() {
            Ok(pc) => match classify_orbit(&pc) {
                Some(orb) => orb.degree(),
                None => 0,
            },
            Err(_) => 0,
        };
        degrees.push(d);
        proof {
            assert(degrees@ =~= dspec.subrange(0, x + 1));
        }
        x = x + 1;
    }
    assert(degrees@ =~= dspec);
    degrees
}

/// Classify a harmonization's degree trajectory: the degree of each chord's
/// orbit, then Traverse (at most one chord, or all equal), Ascent
/// (non-decreasing), Descent (non-increasing) or Mixed.
pub fn classify_trajectory(harmonization: &Harmonization) -> (r: Trajectory)
    requires
        forall|i: int| 0 <= i < harmonization.chords@.len() ==> classifiable(#[trigger] harmonization.chords@[i]),
    ensures
        r == trajectory_of(harmonization.chords@.map_values(|vc: VoicedChord| degree_at(vc))),
{
    let degrees = chord_degrees(&harmonization.chords);
    trajectory_of_degrees(&degrees)
}

/// The trajectory of a degree sequence.
fn trajectory_of_degrees(degrees: &Vec<usize>) -> (r: Trajectory)
    ensures
        r == trajectory_of(degrees@),
{
    let n = degrees.len();
    if n <= 1 {
        return Trajectory::Traverse;
    }
    let mut all_equal = true;
    let mut non_decreasing = true;
    let mut non_increasing = true;
    let mut i: usize = 0;
    while i + 1 < n
        invariant
            0 <= i <= n - 1,
            n == degrees@.len(),
            n >= 2,
            all_equal == (forall|t: int| 0 <= t < i ==> #[trigger] degrees@[t] == degrees@[t + 1]),
            non_decreasing == (forall|t: int| 0 <= t < i ==> #[trigger] degrees@[t] <= degrees@[t + 1]),
            non_increasing == (forall|t: int| 0 <= t < i ==> #[trigger] degrees@[t] >= degrees@[t + 1]),
        decreases n - i,
    {
        if degrees[i] != degrees[i + 1] {
            all_equal = false;
        }
        if degrees[i] > degrees[i + 1] {
            non_decreasing = false;
        }
        if degrees[i] < degrees[i + 1] {
            non_increasing = false;
        }
        i = i + 1;
    }
    if all_equal {
        Trajectory::Traverse
    } else if non_decreasing {
        Trajectory::Ascent
    } else if non_increasing {
        Trajectory::Descent
    } else {
        Trajectory::Mixed
    }
}

/// The matches below `m` are those of pathway `p` at the positions below
/// `m` where its pattern fits and occurs.
proof fn lemma_matches_below_sound(regions: Seq<Option<FunctionalRegion>>, p: Pathway, m: int)
    requires
        regions.len() <= usize::MAX,
    ensures
        forall|k: int| 0 <= k < matches_below(regions, p, m).len() ==> {
            let x = #[trigger] matches_below(regions, p, m)[k];
            &&& x.pathway == p
            &&& x.start_position < m
            &&& x.start_position + pathway_regions(p).len() <= regions.len()
            &&& x.end_position == x.start_position + pathway_regions(p).len() - 1
            &&& occurs_at(regions, pathway_regions(p), x.start_position as int)
        },
    decreases m,
{
    if m > 0 {
        lemma_matches_below_sound(regions, p, m - 1);
        let prev = matches_below(regions, p, m - 1);
        let all = matches_below(regions, p, m);
        assert forall|k: int| 0 <= k < prev.len() implies all[k] == prev[k] by {}
    }
}

/// Every position below `m` where pathway `p` fits and occurs is among the
/// matches below `m`.
proof fn lemma_matches_below_complete(regions: Seq<Option<FunctionalRegion>>, p: Pathway, m: int, i: int)
    requires
        regions.len() <= usize::MAX,
        0 <= i < m,
        i + pathway_regions(p).len() <= regions.len(),
        occurs_at(regions, pathway_regions(p), i),
    ensures
        exists|k: int| 0 <= k < matches_below(regions, p, m).len()
            && #[trigger] matches_below(regions, p, m)[k] == (MatchedPathway {
                pathway: p,
                start_position: i as usize,
                end_position: (i + pathway_regions(p).len() - 1) as usize,
            }),
    decreases m,
{
    let prev = matches_below(regions, p, m - 1);
    let all = matches_below(regions, p, m);
    if i < m - 1 {
        lemma_matches_below_complete(regions, p, m - 1, i);
        let k = choose|k: int| 0 <= k < prev.len()
            && #[trigger] prev[k] == (MatchedPathway {
                pathway: p,
                start_position: i as usize,
                end_position: (i + pathway_regions(p).len() - 1) as usize,
            });
        assert(all[k] == prev[k]);
    } else {
        let x = MatchedPathway {
            pathway: p,
            start_position: i as usize,
            end_position: (i + pathway_regions(p).len() - 1) as usize,
        };
        assert(m - 1 + pathway_regions(p).len() <= regions.len());
        assert(all == prev.push(x));
        assert(all[prev.len() as int] == x);
    }
}

/// The matches of both canonical pathways, as the matches of Cadence
/// followed by those of Departure.
proof fn lemma_all_matches_parts(regions: Seq<Option<FunctionalRegion>>)
    ensures
        all_matches(regions, 2) == (if pathway_regions(Pathway::Cadence).len() > regions.len() {
            seq![]
        } else {
            matches_below(regions, Pathway::Cadence, regions.len() - pathway_regions(Pathway::Cadence).len() + 1)
        }) + (if pathway_regions(Pathway::Departure).len() > regions.len() {
            seq![]
        } else {
            matches_below(regions, Pathway::Departure, regions.len() - pathway_regions(Pathway::Departure).len() + 1)
        }),
{
    reveal_with_fuel(all_matches, 3);
    assert(all_matches(regions, 0) == Seq::<MatchedPathway>::empty());
    assert(all_pathways()[0] == Pathway::Cadence);
    assert(all_pathways()[1] == Pathway::Departure);
    assert(all_matches(regions, 1) =~= Seq::<MatchedPathway>::empty() + (if pathway_regions(Pathway::Cadence).len() > regions.len() {
            seq![]
        } else {
            matches_below(regions, Pathway::Cadence, regions.len() - pathway_regions(Pathway::Cadence).len() + 1)
        }));
}

/// A reported match holds: every region in positions `start_position` to
/// `end_position` of the progression equals the region in the same place
/// of the pathway's pattern, and the match spans exactly the pattern.
pub proof fn lemma_reported_match_holds(regions: Seq<Option<FunctionalRegion>>, k: int)
    requires
        regions.len() <= usize::MAX,
        0 <= k < all_matches(regions, 2).len(),
    ensures
        ({
            let m = all_matches(regions, 2)[k];
            let pat = pathway_regions(m.pathway);
            &&& m.start_position + pat.len() <= regions.len()
            &&& m.end_position == m.start_position + pat.len() - 1
            &&& forall|j: int| 0 <= j < pat.len() ==> #[trigger] regions[m.start_position + j] == Some(pat[j])
        }),
{
    lemma_all_matches_parts(regions);
    let lc = pathway_regions(Pathway::Cadence).len();
    let ld = pathway_regions(Pathway::Departure).len();
    lemma_matches_below_sound(regions, Pathway::Cadence, regions.len() - lc + 1);
    lemma_matches_below_sound(regions, Pathway::Departure, regions.len() - ld + 1);
    let all = all_matches(regions, 2);
    let m = all[k];
    let pat = pathway_regions(m.pathway);
    assert(occurs_at(regions, pat, m.start_position as int));
    assert forall|j: int| 0 <= j < pat.len() implies #[trigger] regions[m.start_position + j] == Some(pat[j]) by {
        assert(regions[m.start_position as int + j] == Some(pat[j]));
    }
}

/// No occurrence is missed: wherever the pattern of a canonical pathway
/// occurs in full among the regions, starting at position `i`, the matches
/// report that pathway at `i..=i + len - 1`.
pub proof fn lemma_occurrence_reported(regions: Seq<Option<FunctionalRegion>>, p: Pathway, i: int)
    requires
        regions.len() <= usize::MAX,
        0 <= i,
        i + pathway_regions(p).len() <= regions.len(),
        forall|j: int| 0 <= j < pathway_regions(p).len() ==> #[trigger] regions[i + j] == Some(pathway_regions(p)[j]),
    ensures
        exists|k: int| 0 <= k < all_matches(regions, 2).len()
            && #[trigger] all_matches(regions, 2)[k] == (MatchedPathway {
                pathway: p,
                start_position: i as usize,
                end_position: (i + pathway_regions(p).len() - 1) as usize,
            }),
{
    lemma_all_matches_parts(regions);
    let target = MatchedPathway {
        pathway: p,
        start_position: i as usize,
        end_position: (i + pathway_regions(p).len() - 1) as usize,
    };
    let lc = pathway_regions(Pathway::Cadence).len();
    let ld = pathway_regions(Pathway::Departure).len();
    let all = all_matches(regions, 2);
    lemma_matches_below_complete(regions, p, regions.len() - pathway_regions(p).len() + 1, i);
    let mb = matches_below(regions, p, regions.len() - pathway_regions(p).len() + 1);
    let k = choose|k: int| 0 <= k < mb.len() && #[trigger] mb[k] == target;
    match p {
        Pathway::Cadence => {
            assert(all[k] == mb[k]);
        },
        Pathway::Departure => {
            let c = matches_below(regions, Pathway::Cadence, regions.len() - lc + 1);
            let head = if lc > regions.len() { Seq::<MatchedPathway>::empty() } else { c };
            assert(all[head.len() + k] == mb[k]);
        },
    }
}

} // verus!

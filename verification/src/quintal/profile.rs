//! The geodesic profile of a source chord: for every other chord its
//! distance, orbit and number of shortest paths, ordered by distance, then
//! by decreasing number of paths, then by pitch classes; and per distance
//! the number of chords, the total and largest number of paths, and the
//! chords that reach that largest number.

use vstd::prelude::*;

use super::base_space::{base_space_wf, chord_in_base, chord_key, enumerates_base, BaseSpace};
use super::bfs::{bfs_vertex_ok, bfs_with_parents};
use super::classification::lemma_base_chord_classified;
use super::distance::{chord_pos, dist_u8, lemma_found_index};
use super::geodesics::geo_count;
use super::graph::sat_usize;
use super::orbit::{classify_orbit, classify_spec, Orbit};
use super::types::PcChord;

verus! {

/// One row of the per-target geodesic profile.
#[derive(Debug, Clone, Copy, PartialEq, Eq)]
#[non_exhaustive]
pub struct GeodesicProfileEntry {
    /// The target chord this row is about.
    pub chord: PcChord,
    /// The orbit `chord` belongs to.
    pub orbit: Orbit,
    /// Shortest-path distance from the source.
    pub distance: u8,
    /// The number of distinct shortest paths from the source.
    pub geodesic_count: u64,
}

/// The totals of one distance of the profile.
#[derive(Debug, Clone, PartialEq, Eq)]
#[non_exhaustive]
pub struct GeodesicBucketTotals {
    /// The distance this bucket represents.
    pub distance: u8,
    /// How many chords lie at exactly this distance.
    pub chords_at_d: usize,
    /// The sum of the numbers of shortest paths of those chords.
    pub sum_geodesics: u128,
    /// The largest number of shortest paths among those chords.
    pub max_geodesics: u64,
    /// Every chord at this distance with the largest number of paths, with
    /// its orbit, by ascending pitch classes.
    pub max_chords: Vec<(PcChord, Orbit)>,
}

/// The geodesic profile of a source chord.
#[derive(Debug, Clone, PartialEq, Eq)]
#[non_exhaustive]
pub struct GeodesicProfile {
    /// The source chord.
    pub source: PcChord,
    /// The orbit of the source.
    pub source_orbit: Orbit,
    /// The largest distance to any reachable chord (0 when there is none).
    pub eccentricity: u8,
    /// The number of reachable chords other than the source.
    pub reachable_chords: usize,
    /// One bucket per distance that some chord reaches, by ascending distance.
    pub buckets: Vec<GeodesicBucketTotals>,
    /// One row per reachable chord other than the source, by ascending
    /// distance, then descending number of paths, then ascending pitch classes.
    pub per_chord: Vec<GeodesicProfileEntry>,
}

/// The row of vertex `v` for a search from `s`: present when `v` is
/// reachable and not the source.
pub open spec fn profile_row(chords: Seq<PcChord>, adj: Seq<Seq<usize>>, s: int, v: int) -> Option<GeodesicProfileEntry> {
    match dist_u8(adj, s, v) {
        Some(d) => if d != 0 {
            Some(
                GeodesicProfileEntry {
                    chord: chords[v],
                    orbit: classify_spec(chords[v])->0,
                    distance: d,
                    geodesic_count: sat_usize(geo_count(adj, s, v)) as u64,
                },
            )
        } else {
            None
        },
        None => None,
    }
}

/// The rows of the first `n` vertices, in vertex order.
pub open spec fn profile_rows(chords: Seq<PcChord>, adj: Seq<Seq<usize>>, s: int, n: int) -> Seq<GeodesicProfileEntry>
    decreases n,
{
    if n <= 0 {
        seq![]
    } else {
        let prev = profile_rows(chords, adj, s, n - 1);
        match profile_row(chords, adj, s, n - 1) {
            Some(e) => prev.push(e),
            None => prev,
        }
    }
}

/// `a` comes before `b` in the profile: nearer, or as near with more
/// shortest paths, or tied on both with lower pitch classes.
pub open spec fn row_before(a: GeodesicProfileEntry, b: GeodesicProfileEntry) -> bool {
    ||| a.distance < b.distance
    ||| a.distance == b.distance && a.geodesic_count > b.geodesic_count
    ||| a.distance == b.distance && a.geodesic_count == b.geodesic_count && chord_key(a.chord) < chord_key(b.chord)
}

/// The rows are in profile order.
pub open spec fn rows_sorted(rs: Seq<GeodesicProfileEntry>) -> bool {
    forall|i: int, j: int| 0 <= i < j < rs.len() ==> row_before(#[trigger] rs[i], #[trigger] rs[j])
}

/// The number of the first `n` rows at distance `d`.
pub open spec fn count_at(rs: Seq<GeodesicProfileEntry>, d: u8, n: int) -> nat
    decreases n,
{
    if n <= 0 {
        0
    } else {
        count_at(rs, d, n - 1) + if rs[n - 1].distance == d { 1nat } else { 0nat }
    }
}

/// The total number of shortest paths of the first `n` rows at distance `d`.
pub open spec fn sum_at(rs: Seq<GeodesicProfileEntry>, d: u8, n: int) -> nat
    decreases n,
{
    if n <= 0 {
        0
    } else {
        sum_at(rs, d, n - 1) + if rs[n - 1].distance == d { rs[n - 1].geodesic_count as nat } else { 0nat }
    }
}

/// The largest number of shortest paths of the first `n` rows at distance
/// `d` (0 when there is none).
pub open spec fn max_at(rs: Seq<GeodesicProfileEntry>, d: u8, n: int) -> u64
    decreases n,
{
    if n <= 0 {
        0
    } else {
        let m = max_at(rs, d, n - 1);
        if rs[n - 1].distance == d && rs[n - 1].geodesic_count > m {
            rs[n - 1].geodesic_count
        } else {
            m
        }
    }
}

/// The chords and orbits of the first `n` rows at distance `d` with `m`
/// shortest paths, in row order.
pub open spec fn tied_at(rs: Seq<GeodesicProfileEntry>, d: u8, m: u64, n: int) -> Seq<(PcChord, Orbit)>
    decreases n,
{
    if n <= 0 {
        seq![]
    } else {
        let prev = tied_at(rs, d, m, n - 1);
        if rs[n - 1].distance == d && rs[n - 1].geodesic_count == m {
            prev.push((rs[n - 1].chord, rs[n - 1].orbit))
        } else {
            prev
        }
    }
}

/// The distances `1..=m` that some row reaches, ascending.
pub open spec fn present_distances(rs: Seq<GeodesicProfileEntry>, m: int) -> Seq<u8>
    decreases m,
{
    if m <= 0 {
        seq![]
    } else {
        let prev = present_distances(rs, m - 1);
        if count_at(rs, m as u8, rs.len() as int) > 0 {
            prev.push(m as u8)
        } else {
            prev
        }
    }
}

/// The view of a bucket: its distance, count, total, maximum and tied chords.
pub open spec fn bucket_view(b: GeodesicBucketTotals) -> (u8, usize, u128, u64, Seq<(PcChord, Orbit)>) {
    (b.distance, b.chords_at_d, b.sum_geodesics, b.max_geodesics, b.max_chords@)
}

/// The bucket of distance `d` over the rows.
pub open spec fn bucket_spec(rs: Seq<GeodesicProfileEntry>, d: u8) -> (u8, usize, u128, u64, Seq<(PcChord, Orbit)>) {
    let n = rs.len() as int;
    (d, count_at(rs, d, n) as usize, sum_at(rs, d, n) as u128, max_at(rs, d, n), tied_at(rs, d, max_at(rs, d, n), n))
}

/// What the profile of a chord of the space holds, given its rows.
pub open spec fn profile_ok(p: GeodesicProfile, source: PcChord, rs: Seq<GeodesicProfileEntry>) -> bool {
    let ds = present_distances(rs, 255);
    &&& p.source == source
    &&& p.source_orbit == classify_spec(source)->0
    &&& p.reachable_chords == rs.len()
    &&& p.eccentricity == if ds.len() > 0 { ds.last() } else { 0u8 }
    &&& p.buckets@.len() == ds.len()
    &&& forall|i: int| 0 <= i < ds.len() ==> bucket_view(#[trigger] p.buckets@[i]) == bucket_spec(rs, ds[i])
    &&& p.per_chord@.len() == rs.len()
    &&& rows_sorted(p.per_chord@)
    &&& forall|e: GeodesicProfileEntry| p.per_chord@.contains(e) <==> rs.contains(e)
}

/// The rows of a search over the whole space from `source`.
pub open spec fn space_rows(space: &BaseSpace, source: PcChord) -> Seq<GeodesicProfileEntry> {
    profile_rows(space.chords_view(), space.adj_view(), chord_pos(space, source), space.chords_view().len() as int)
}

/// Insert a row into rows kept in profile order, where no kept row shares
/// its chord.
fn insert_row(v: &mut Vec<GeodesicProfileEntry>, e: GeodesicProfileEntry)
    requires
        rows_sorted(old(v)@),
        forall|i: int| 0 <= i < old(v)@.len() ==> chord_key(#[trigger] old(v)@[i].chord) != chord_key(e.chord),
    ensures
        rows_sorted(final(v)@),
        final(v)@.len() == old(v)@.len() + 1,
        forall|x: GeodesicProfileEntry| #[trigger] final(v)@.contains(x) <==> old(v)@.contains(x) || x == e,
{
    let ghost v0 = v@;
    let mut pos: usize = 0;
    while pos < v.len() && before_exec(&v[pos], &e)
        invariant
            0 <= pos <= v@.len(),
            v@ == v0,
            forall|i: int| 0 <= i < pos ==> row_before(v@[i], e),
        decreases v@.len() - pos,
    {
        pos = pos + 1;
    }
    v.insert(pos, e);
    proof {
        let v1 = v@;
        if pos < v0.len() {
            assert(!row_before(v0[pos as int], e));
            assert(chord_key(v0[pos as int].chord) != chord_key(e.chord));
        }
        assert forall|i: int, j: int| 0 <= i < j < v1.len() implies row_before(#[trigger] v1[i], #[trigger] v1[j]) by {
            if j < pos {
                assert(v1[i] == v0[i] && v1[j] == v0[j]);
            } else if j == pos {
                assert(v1[i] == v0[i]);
            } else if i < pos {
                assert(v1[i] == v0[i] && v1[j] == v0[j - 1]);
                assert(row_before(v0[i], v0[j - 1]));
            } else if i == pos {
                assert(v1[j] == v0[j - 1]);
                assert(!row_before(v0[pos as int], e));
                assert(chord_key(v0[pos as int].chord) != chord_key(e.chord));
                if pos < j - 1 {
                    assert(row_before(v0[pos as int], v0[j - 1]));
                }
            } else {
                assert(v1[i] == v0[i - 1] && v1[j] == v0[j - 1]);
            }
        }
        assert forall|x: GeodesicProfileEntry| #[trigger] v1.contains(x) <==> v0.contains(x) || x == e by {
            if v1.contains(x) {
                let i = choose|i: int| 0 <= i < v1.len() && v1[i] == x;
                if i < pos {
                    assert(v0[i] == x);
                } else if i > pos {
                    assert(v0[i - 1] == x);
                }
            }
            if v0.contains(x) {
                let i = choose|i: int| 0 <= i < v0.len() && v0[i] == x;
                if i < pos {
                    assert(v1[i] == x);
                } else {
                    assert(v1[i + 1] == x);
                }
            }
            if x == e {
                assert(v1[pos as int] == x);
            }
        }
    }
}

/// Whether row `a` comes before row `b` in the profile.
fn before_exec(a: &GeodesicProfileEntry, b: &GeodesicProfileEntry) -> (r: bool)
    ensures
        r == row_before(*a, *b),
{
    let ka: u32 = a.chord.pcs[0] as u32 * 1728 + a.chord.pcs[1] as u32 * 144 + a.chord.pcs[2] as u32 * 12 + a.chord.pcs[3] as u32;
    let kb: u32 = b.chord.pcs[0] as u32 * 1728 + b.chord.pcs[1] as u32 * 144 + b.chord.pcs[2] as u32 * 12 + b.chord.pcs[3] as u32;
    a.distance < b.distance || (a.distance == b.distance && a.geodesic_count > b.geodesic_count) || (a.distance
        == b.distance && a.geodesic_count == b.geodesic_count && ka < kb)
}


/// The bucket of distance `d` over the rows, when some row lies at that distance.
fn bucket_for(rows: &Vec<GeodesicProfileEntry>, d: u8) -> (r: Option<GeodesicBucketTotals>)
    ensures
        count_at(rows@, d, rows@.len() as int) > 0 ==> r is Some && bucket_view(r->0) == bucket_spec(rows@, d),
        count_at(rows@, d, rows@.len() as int) == 0 ==> r is None,
{
    let n = rows.len();
    let mut count: usize = 0;
    let mut sum: u128 = 0;
    let mut max: u64 = 0;
    let mut i: usize = 0;
    while i < n
        invariant
            0 <= i <= n,
            n == rows@.len(),
            count == count_at(rows@, d, i as int),
            count <= i,
            sum == sum_at(rows@, d, i as int),
            sum <= i * 18446744073709551615,
            max == max_at(rows@, d, i as int),
        decreases n - i,
    {
        let e = rows[i];
        if e.distance == d {
            count = count + 1;
            sum = sum + e.geodesic_count as u128;
            if e.geodesic_count > max {
                max = e.geodesic_count;
            }
        }
        i = i + 1;
    }
    if count == 0 {
        return None;
    }
    let mut tied: Vec<(PcChord, Orbit)> = Vec::new();
    let mut j: usize = 0;
    while j < n
        invariant
            0 <= j <= n,
            n == rows@.len(),
            tied@ == tied_at(rows@, d, max, j as int),
        decreases n - j,
    {
        let e = rows[j];
        if e.distance == d && e.geodesic_count == max {
            tied.push((e.chord, e.orbit));
        }
        j = j + 1;
    }
    Some(GeodesicBucketTotals { distance: d, chords_at_d: count, sum_geodesics: sum, max_geodesics: max, max_chords: tied })
}

/// One bucket per distance `1..=255` that some row reaches, ascending.
fn buckets_of(rows: &Vec<GeodesicProfileEntry>) -> (r: Vec<GeodesicBucketTotals>)
    ensures
        r@.len() == present_distances(rows@, 255).len(),
        forall|i: int| 0 <= i < r@.len() ==> bucket_view(#[trigger] r@[i]) == bucket_spec(rows@, present_distances(rows@, 255)[i]),
        forall|i: int| 0 <= i < r@.len() ==> (#[trigger] r@[i]).distance == present_distances(rows@, 255)[i],
{
    let mut out: Vec<GeodesicBucketTotals> = Vec::new();
    let mut d: u16 = 1;
    while d <= 255
        invariant
            1 <= d <= 256,
            out@.len() == present_distances(rows@, d - 1).len(),
            forall|i: int| 0 <= i < out@.len() ==> bucket_view(#[trigger] out@[i]) == bucket_spec(rows@, present_distances(rows@, d - 1)[i]),
        decreases 256 - d,
    {
        let ghost before = out@;
        match bucket_for(rows, d as u8) {
            Some(b) => {
                out.push(b);
            },
            None => {},
        }
        proof {
            let ds = present_distances(rows@, d as int);
            assert(ds == if count_at(rows@, d as u8, rows@.len() as int) > 0 {
                present_distances(rows@, d - 1).push(d as u8)
            } else {
                present_distances(rows@, d - 1)
            });
            assert forall|i: int| 0 <= i < out@.len() implies bucket_view(#[trigger] out@[i]) == bucket_spec(rows@, ds[i]) by {
                if i < before.len() {
                    assert(out@[i] == before[i]);
                }
            }
        }
        d = d + 1;
    }
    out
}

/// The row of vertex `i`, from its search results.
fn vertex_row(chords: &[PcChord], dv: Option<usize>, sv: usize, i: usize, Ghost(adj): Ghost<Seq<Seq<usize>>>, Ghost(s): Ghost<int>, Ghost(pv): Ghost<Seq<usize>>) -> (r: Option<GeodesicProfileEntry>)
    requires
        i < chords@.len(),
        enumerates_base(chords@),
        bfs_vertex_ok(adj, s, i as int, dv, sv, pv),
    ensures
        r == profile_row(chords@, adj, s, i as int),
{
    proof {
        assert(chord_in_base(chords@[i as int]));
        lemma_base_chord_classified(chords@[i as int]);
    }
    match dv {
        Some(k) => {
            let d: u8 = if k > 255 {
                255
            } else {
                k as u8
            };
            if d != 0 {
                match classify_orbit(&chords[i]) {
                    Some(o) => Some(GeodesicProfileEntry { chord: chords[i], orbit: o, distance: d, geodesic_count: sv as u64 }),
                    None => None,
                }
            } else {
                None
            }
        },
        None => None,
    }
}

/// After one more vertex, the kept rows all have chords before the next vertex.
proof fn lemma_keys_advance(
    chords: Seq<PcChord>,
    before: Seq<GeodesicProfileEntry>,
    after: Seq<GeodesicProfileEntry>,
    rows_before: Seq<GeodesicProfileEntry>,
    rows_after: Seq<GeodesicProfileEntry>,
    row: Option<GeodesicProfileEntry>,
    i: int,
)
    requires
        enumerates_base(chords),
        0 <= i < chords.len(),
        forall|j: int| 0 <= j < before.len() ==> chord_key(#[trigger] before[j].chord) < chord_key(chords[i]),
        forall|x: GeodesicProfileEntry| #[trigger] before.contains(x) <==> rows_before.contains(x),
        row matches Some(e) ==> e.chord == chords[i] && rows_after == rows_before.push(e) && (forall|x: GeodesicProfileEntry| #[trigger] after.contains(x) <==> before.contains(x) || x == e),
        row is None ==> rows_after == rows_before && after == before,
    ensures
        forall|x: GeodesicProfileEntry| #[trigger] after.contains(x) <==> rows_after.contains(x),
        i + 1 < chords.len() ==> forall|j: int| 0 <= j < after.len() ==> chord_key(#[trigger] after[j].chord) < chord_key(chords[i + 1]),
{
    if let Some(e) = row {
        assert forall|x: GeodesicProfileEntry| #[trigger] after.contains(x) <==> rows_after.contains(x) by {
            if rows_after.contains(x) {
                let m = choose|m: int| 0 <= m < rows_after.len() && rows_after[m] == x;
                if m < rows_before.len() {
                    assert(rows_before[m] == x);
                    assert(rows_before.contains(x));
                }
            }
            if rows_before.contains(x) {
                let m = choose|m: int| 0 <= m < rows_before.len() && rows_before[m] == x;
                assert(rows_after[m] == x);
            }
            if x == e {
                assert(rows_after[rows_before.len() as int] == x);
            }
        }
    }
    if i + 1 < chords.len() {
        assert(chord_key(chords[i]) < chord_key(chords[i + 1]));
        assert forall|j: int| 0 <= j < after.len() implies chord_key(#[trigger] after[j].chord) < chord_key(chords[i + 1]) by {
            assert(after.contains(after[j]));
            if before.contains(after[j]) {
                let m = choose|m: int| 0 <= m < before.len() && before[m] == after[j];
                assert(chord_key(before[m].chord) < chord_key(chords[i]));
            }
        }
    }
}

/// The geodesic profile of `source`: for every other reachable chord its
/// distance, orbit and number of shortest paths in profile order, and the
/// totals per distance; `None` if `source` is not in the space.
pub fn geodesic_profile(space: &BaseSpace, source: &PcChord) -> (r: Option<GeodesicProfile>)
    ensures
        r is None <==> !space.chords_view().contains(*source),
        r matches Some(p) ==> profile_ok(p, *source, space_rows(space, *source)),
{
    let n = space.len();
    let si = match space.chord_index(source) {
        Some(i) => i,
        None => return None,
    };
    proof {
        lemma_found_index(space, *source, si as int);
    }
    let ghost adj = space.adj_view();
    let (dist, _parents, sigma) = bfs_with_parents(space, si);
    let chords = space.chords();
    let mut rows: Vec<GeodesicProfileEntry> = Vec::new();
    let mut per_chord: Vec<GeodesicProfileEntry> = Vec::new();
    let mut i: usize = 0;
    while i < n
        invariant
            0 <= i <= n,
            n == chords@.len(),
            n == adj.len(),
            chords@ == space.chords_view(),
            adj == space.adj_view(),
            base_space_wf(chords@, adj),
            dist@.len() == n,
            sigma@.len() == n,
            _parents@.len() == n,
            forall|v: int|
                0 <= v < n ==> bfs_vertex_ok(adj, si as int, v, #[trigger] dist@[v], sigma@[v], _parents@[v]@),
            rows@ == profile_rows(chords@, adj, si as int, i as int),
            rows_sorted(per_chord@),
            per_chord@.len() == rows@.len(),
            forall|x: GeodesicProfileEntry| #[trigger] per_chord@.contains(x) <==> rows@.contains(x),
            i < n ==> forall|j: int| 0 <= j < per_chord@.len() ==> chord_key(#[trigger] per_chord@[j].chord) < chord_key(chords@[i as int]),
        decreases n - i,
    {
        proof {
            assert(bfs_vertex_ok(adj, si as int, i as int, dist@[i as int], sigma@[i as int], _parents@[i as int]@));
        }
        let ghost before = per_chord@;
        let ghost rows_before = rows@;
        let row = vertex_row(chords, dist[i], sigma[i], i, Ghost(adj), Ghost(si as int), Ghost(_parents@[i as int]@));
        match row {
            Some(e) => {
                rows.push(e);
                insert_row(&mut per_chord, e);
            },
            None => {},
        }
        proof {
            assert(rows@ == profile_rows(chords@, adj, si as int, i + 1));
            lemma_keys_advance(chords@, before, per_chord@, rows_before, rows@, row, i as int);
        }
        i = i + 1;
    }
    let buckets = buckets_of(&rows);
    let eccentricity: u8 = if buckets.len() > 0 {
        buckets[buckets.len() - 1].distance
    } else {
        0
    };
    proof {
        assert(chord_in_base(*source));
        lemma_base_chord_classified(*source);
    }
    let source_orbit = match classify_orbit(source) {
        Some(o) => o,
        None => return None,
    };
    let reachable_chords = rows.len();
    Some(GeodesicProfile { source: *source, source_orbit, eccentricity, reachable_chords, buckets, per_chord })
}

} // verus!

//! Geodesic (shortest-path) enumeration and counting on the base space graph:
//! all shortest paths between two chords, their number, the chords lying
//! metrically between two chords, and per-chord distance and path counts
//! from a single source.

use vstd::prelude::*;

use super::base_space::{base_space_wf, BaseSpace};
use super::bfs::{bfs_vertex_ok, bfs_with_parents, is_parent, parent_row, rows_view};
use super::distance::{bfs_distances, chord_pos, dist_u8, dists_from, lemma_found_index, reach_list};
use super::graph::{
    dist_is, edge, lemma_dist_unique, lemma_shortest_is, lemma_walks_within, lemma_within_mono,
    sat_usize, shortest, walk_sum, walks, within,
};
use super::types::PcChord;

verus! {

/// The shortest-path distance of `v` from `s`, or 0 when `v` is unreachable.
pub open spec fn shortest_or0(adj: Seq<Seq<usize>>, s: int, v: int) -> nat {
    match shortest(adj, s, v) {
        Some(k) => k,
        None => 0,
    }
}

/// Every path of `ps` extended by the vertex `v`.
pub open spec fn extend_all(ps: Seq<Seq<usize>>, v: int) -> Seq<Seq<usize>> {
    ps.map_values(|p: Seq<usize>| p.push(v as usize))
}

/// The shortest paths of `k` edges from `s` to `v`, as vertex sequences: for
/// `k > 0`, those through each parent of `v` in increasing vertex order.
pub open spec fn geo_paths(adj: Seq<Seq<usize>>, s: int, v: int, k: nat) -> Seq<Seq<usize>>
    decreases k, 1int, 0int,
{
    if k == 0 {
        if v == s {
            seq![seq![s as usize]]
        } else {
            seq![]
        }
    } else {
        geo_paths_below(adj, s, v, k, adj.len() as int)
    }
}

/// The shortest paths of `k` edges from `s` to `v` whose last-but-one vertex is below `m`.
pub open spec fn geo_paths_below(adj: Seq<Seq<usize>>, s: int, v: int, k: nat, m: int) -> Seq<
    Seq<usize>,
>
    decreases k, 0int, m,
{
    if m <= 0 || k == 0 {
        seq![]
    } else {
        geo_paths_below(adj, s, v, k, m - 1) + if is_parent(adj, s, v, k, m - 1) {
            extend_all(geo_paths(adj, s, m - 1, (k - 1) as nat), v)
        } else {
            seq![]
        }
    }
}

/// `p` is a shortest path of `k` edges from `s` to `v`: it starts at `s`,
/// ends at `v`, follows edges, and its `i`-th vertex lies at distance `i`.
pub open spec fn is_geodesic(adj: Seq<Seq<usize>>, s: int, v: int, k: nat, p: Seq<usize>) -> bool {
    &&& p.len() == k + 1
    &&& p[0] == s
    &&& p[k as int] == v
    &&& forall|i: int| 0 <= i < k ==> #[trigger] edge(adj, p[i] as int, p[i + 1] as int)
    &&& forall|i: int| 0 <= i <= k ==> dist_is(adj, s, #[trigger] p[i] as int, i as nat)
}

/// Number of shortest paths from `s` to `v` (0 when `v` is unreachable).
pub open spec fn geo_count(adj: Seq<Seq<usize>>, s: int, v: int) -> nat {
    match shortest(adj, s, v) {
        Some(k) => walks(adj, s, v, k),
        None => 0,
    }
}

/// The reachable chords among the first `n`, paired with their numbers of
/// shortest paths from `s` (clamped to `usize`), in order.
pub open spec fn count_list(chords: Seq<PcChord>, adj: Seq<Seq<usize>>, s: int, n: int) -> Seq<
    (PcChord, u64),
>
    decreases n,
{
    if n <= 0 {
        seq![]
    } else {
        let prev = count_list(chords, adj, s, n - 1);
        if shortest(adj, s, n - 1) is Some {
            prev.push((chords[n - 1], sat_usize(geo_count(adj, s, n - 1)) as u64))
        } else {
            prev
        }
    }
}

/// The chords `z` among the first `n`, other than the vertices `a` and `b`,
/// with `d(a, z) + d(z, b) == d(a, b)`, in order.
pub open spec fn between_list(
    chords: Seq<PcChord>,
    da: Seq<Option<u8>>,
    db: Seq<Option<u8>>,
    a: int,
    b: int,
    dab: u8,
    n: int,
) -> Seq<PcChord>
    decreases n,
{
    if n <= 0 {
        seq![]
    } else {
        let prev = between_list(chords, da, db, a, b, dab, n - 1);
        let i = n - 1;
        if i != a && i != b && da[i] is Some && db[i] is Some && da[i]->0 + db[i]->0 == dab {
            prev.push(chords[i])
        } else {
            prev
        }
    }
}

/// The chords along each vertex path.
pub open spec fn paths_to_chords(chords: Seq<PcChord>, ps: Seq<Seq<usize>>) -> Seq<Seq<PcChord>> {
    ps.map_values(|p: Seq<usize>| p.map_values(|i: usize| chords[i as int]))
}

/// The views of a vector of chord paths.
pub open spec fn chord_rows(p: Seq<Vec<PcChord>>) -> Seq<Seq<PcChord>> {
    Seq::new(p.len(), |i: int| p[i]@)
}

/// The shortest paths between two chords of the space, as chord sequences
/// (empty when either chord is missing or they are not connected).
pub open spec fn space_geodesics(space: &BaseSpace, a: PcChord, b: PcChord) -> Seq<Seq<PcChord>> {
    let chords = space.chords_view();
    let adj = space.adj_view();
    if chords.contains(a) && chords.contains(b) && shortest(adj, chord_pos(space, a), chord_pos(space, b)) is Some {
        let k = shortest(adj, chord_pos(space, a), chord_pos(space, b))->0;
        paths_to_chords(chords, geo_paths(adj, chord_pos(space, a), chord_pos(space, b), k))
    } else {
        seq![]
    }
}

/// The chords between two chords of the space (empty when either is missing,
/// they are equal, or they are not connected).
pub open spec fn space_passing(space: &BaseSpace, a: PcChord, b: PcChord) -> Seq<PcChord> {
    let chords = space.chords_view();
    let adj = space.adj_view();
    let ia = chord_pos(space, a);
    let ib = chord_pos(space, b);
    if chords.contains(a) && chords.contains(b) && a != b && dist_u8(adj, ia, ib) is Some {
        between_list(chords, dists_from(adj, ia), dists_from(adj, ib), ia, ib, dist_u8(adj, ia, ib)->0, chords.len() as int)
    } else {
        seq![]
    }
}

/// The per-chord distances and shortest-path counts from `source`, when it is in the space.
pub open spec fn space_counts(space: &BaseSpace, source: PcChord) -> Option<(Seq<(PcChord, u8)>, Seq<(PcChord, u64)>)> {
    let chords = space.chords_view();
    let adj = space.adj_view();
    let si = chord_pos(space, source);
    if chords.contains(source) {
        Some((reach_list(chords, dists_from(adj, si), chords.len() as int), count_list(chords, adj, si, chords.len() as int)))
    } else {
        None
    }
}

/// The result of a count query agrees with the expected distances and counts.
pub open spec fn counts_match(
    r: Option<DistAndGeodesicCounts>,
    e: Option<(Seq<(PcChord, u8)>, Seq<(PcChord, u64)>)>,
) -> bool {
    match (r, e) {
        (Some(x), Some(p)) => x.distances@ == p.0 && x.geodesic_counts@ == p.1,
        (None, None) => true,
        _ => false,
    }
}

/// A vertex at distance 0 is the source, and the source is at distance 0.
proof fn lemma_dist_zero(adj: Seq<Seq<usize>>, s: int, v: int, k: nat)
    requires
        dist_is(adj, s, v, k),
    ensures
        (v == s) <==> (k == 0),
{
    if v == s && k > 0 {
        lemma_within_mono(adj, s, v, 0, (k - 1) as nat);
    }
}

/// Parents outside `[m1, m2)` leave the paths below a bound unchanged.
proof fn lemma_geo_skip(adj: Seq<Seq<usize>>, s: int, v: int, k: nat, m1: int, m2: int)
    requires
        0 <= m1 <= m2,
        forall|u: int| m1 <= u < m2 ==> !#[trigger] is_parent(adj, s, v, k, u),
    ensures
        geo_paths_below(adj, s, v, k, m2) == geo_paths_below(adj, s, v, k, m1),
    decreases m2 - m1,
{
    if m1 < m2 {
        lemma_geo_skip(adj, s, v, k, m1, m2 - 1);
        assert(!is_parent(adj, s, v, k, m2 - 1));
        if k > 0 {
            assert(geo_paths_below(adj, s, v, k, m2) =~= geo_paths_below(adj, s, v, k, m2 - 1));
        }
    }
}

/// The shortest paths to `v` number exactly the walks of `k` edges to `v`
/// when `v` lies at distance `k`.
pub proof fn lemma_geo_count(adj: Seq<Seq<usize>>, s: int, v: int, k: nat)
    requires
        0 <= v < adj.len(),
        dist_is(adj, s, v, k),
    ensures
        geo_paths(adj, s, v, k).len() == walks(adj, s, v, k),
    decreases k, 1int, 0int,
{
    if k == 0 {
        lemma_dist_zero(adj, s, v, k);
    } else {
        lemma_geo_count_below(adj, s, v, k, adj.len() as int);
    }
}

proof fn lemma_geo_count_below(adj: Seq<Seq<usize>>, s: int, v: int, k: nat, m: int)
    requires
        0 <= v < adj.len(),
        k > 0,
        m <= adj.len(),
        dist_is(adj, s, v, k),
    ensures
        geo_paths_below(adj, s, v, k, m).len() == walk_sum(adj, s, v, (k - 1) as nat, m),
    decreases k, 0int, m,
{
    if m > 0 {
        lemma_geo_count_below(adj, s, v, k, m - 1);
        let u = m - 1;
        if adj[u].contains(v as usize) {
            assert(edge(adj, u, v));
            if dist_is(adj, s, u, (k - 1) as nat) {
                lemma_geo_count(adj, s, u, (k - 1) as nat);
                assert(extend_all(geo_paths(adj, s, u, (k - 1) as nat), v).len() == geo_paths(
                    adj,
                    s,
                    u,
                    (k - 1) as nat,
                ).len());
            } else if walks(adj, s, u, (k - 1) as nat) > 0 {
                lemma_walks_within(adj, s, u, (k - 1) as nat);
                super::graph::lemma_least(adj, s, u, (k - 1) as nat);
                let j = choose|j: nat| j <= (k - 1) as nat && dist_is(adj, s, u, j);
                assert(j < k - 1);
                assert(within(adj, s, v, j + 1));
                lemma_within_mono(adj, s, v, j + 1, (k - 1) as nat);
            }
        } else {
            assert(!edge(adj, u, v));
        }
    }
}

/// Every path listed by `geo_paths` is a shortest path of `k` edges from `s` to `v`.
pub proof fn lemma_geo_sound(adj: Seq<Seq<usize>>, s: int, v: int, k: nat, x: int)
    requires
        adj.len() <= usize::MAX,
        0 <= s < adj.len(),
        0 <= v < adj.len(),
        dist_is(adj, s, v, k),
        0 <= x < geo_paths(adj, s, v, k).len(),
    ensures
        is_geodesic(adj, s, v, k, geo_paths(adj, s, v, k)[x]),
    decreases k, 1int, 0int,
{
    if k == 0 {
        lemma_dist_zero(adj, s, v, k);
        let p = geo_paths(adj, s, v, k)[x];
        assert(p =~= seq![s as usize]);
        assert(dist_is(adj, s, s, 0));
    } else {
        lemma_geo_sound_below(adj, s, v, k, adj.len() as int, x);
    }
}

proof fn lemma_geo_sound_below(adj: Seq<Seq<usize>>, s: int, v: int, k: nat, m: int, x: int)
    requires
        adj.len() <= usize::MAX,
        0 <= s < adj.len(),
        0 <= v < adj.len(),
        k > 0,
        m <= adj.len(),
        dist_is(adj, s, v, k),
        0 <= x < geo_paths_below(adj, s, v, k, m).len(),
    ensures
        is_geodesic(adj, s, v, k, geo_paths_below(adj, s, v, k, m)[x]),
    decreases k, 0int, m,
{
    let prev = geo_paths_below(adj, s, v, k, m - 1);
    if x < prev.len() {
        lemma_geo_sound_below(adj, s, v, k, m - 1, x);
    } else {
        let u = m - 1;
        let sub = geo_paths(adj, s, u, (k - 1) as nat);
        let y = x - prev.len();
        assert(is_parent(adj, s, v, k, u));
        lemma_geo_sound(adj, s, u, (k - 1) as nat, y);
        let q = sub[y];
        let p = geo_paths_below(adj, s, v, k, m)[x];
        assert(p == q.push(v as usize));
        assert forall|i: int| 0 <= i < k implies #[trigger] edge(adj, p[i] as int, p[i + 1] as int) by {
            if i < k - 1 {
                assert(edge(adj, q[i] as int, q[i + 1] as int));
            } else {
                assert(p[i] == u);
            }
        }
        assert forall|i: int| 0 <= i <= k implies dist_is(adj, s, #[trigger] p[i] as int, i as nat) by {
            if i < k {
                assert(p[i] == q[i]);
            }
        }
    }
}

/// Collect the shortest paths from `source` to `current` through the parent
/// lists produced by the search, as vertex sequences.
fn collect_paths(
    parents: &Vec<Vec<usize>>,
    current: usize,
    source: usize,
    Ghost(adj): Ghost<Seq<Seq<usize>>>,
    Ghost(k): Ghost<nat>,
) -> (r: Vec<Vec<usize>>)
    requires
        parents@.len() == adj.len(),
        adj.len() <= usize::MAX,
        current < adj.len(),
        source < adj.len(),
        dist_is(adj, source as int, current as int, k),
        forall|v: int|
            0 <= v < adj.len() ==> parent_row(
                adj,
                source as int,
                v,
                shortest_or0(adj, source as int, v),
                adj.len() as int,
                #[trigger] parents@[v]@,
            ),
    ensures
        rows_view(r@) == geo_paths(adj, source as int, current as int, k),
    decreases k,
{
    let ghost s = source as int;
    let ghost cv = current as int;
    proof {
        lemma_dist_zero(adj, s, cv, k);
        lemma_shortest_is(adj, s, cv, k);
    }
    if current == source {
        let mut one: Vec<usize> = Vec::new();
        one.push(source);
        let mut all: Vec<Vec<usize>> = Vec::new();
        all.push(one);
        assert(rows_view(all@) =~= geo_paths(adj, s, cv, k));
        return all;
    }
    let row = &parents[current];
    let ghost prow = row@;
    proof {
        assert(parent_row(adj, s, cv, k, adj.len() as int, prow));
    }
    let mut all: Vec<Vec<usize>> = Vec::new();
    let mut t: usize = 0;
    let mut bound: usize = 0;
    while t < row.len()
        invariant
            0 <= t <= prow.len(),
            prow == row@,
            prow == parents@[cv]@,
            parent_row(adj, s, cv, k, adj.len() as int, prow),
            k > 0,
            cv != s,
            s == source,
            cv == current,
            parents@.len() == adj.len(),
            adj.len() <= usize::MAX,
            current < adj.len(),
            source < adj.len(),
            dist_is(adj, s, cv, k),
            forall|v: int|
                0 <= v < adj.len() ==> parent_row(
                    adj,
                    s,
                    v,
                    shortest_or0(adj, s, v),
                    adj.len() as int,
                    #[trigger] parents@[v]@,
                ),
            bound <= adj.len(),
            t == 0 ==> bound == 0,
            t > 0 ==> bound == prow[t - 1] + 1,
            rows_view(all@) == geo_paths_below(adj, s, cv, k, bound as int),
        decreases prow.len() - t,
    {
        let p = row[t];
        proof {
            assert(prow.contains(p));
            assert(is_parent(adj, s, cv, k, p as int));
            assert forall|u: int| bound <= u < p implies !#[trigger] is_parent(adj, s, cv, k, u) by {
                if is_parent(adj, s, cv, k, u) {
                    assert(prow.contains(u as usize));
                    let a = choose|a: int| 0 <= a < prow.len() && prow[a] == u as usize;
                    if a < t {
                        if t > 0 {
                            assert(prow[a] <= prow[t - 1]);
                        }
                    } else if a > t {
                        assert(prow[t as int] < prow[a]);
                    }
                }
            }
            lemma_geo_skip(adj, s, cv, k, bound as int, p as int);
            assert(dist_is(adj, s, p as int, (k - 1) as nat));
            lemma_shortest_is(adj, s, p as int, (k - 1) as nat);
        }
        let sub = collect_paths(parents, p, source, Ghost(adj), Ghost((k - 1) as nat));
        let ghost all0 = rows_view(all@);
        let mut i: usize = 0;
        while i < sub.len()
            invariant
                0 <= i <= sub@.len(),
                rows_view(all@) == all0 + extend_all(rows_view(sub@), cv).subrange(0, i as int),
                cv == current,
            decreases sub@.len() - i,
        {
            let mut path = sub[i].clone();
            proof {
                assert(path@ =~= sub@[i as int]@);
            }
            path.push(current);
            let ghost before = all@;
            all.push(path);
            proof {
                let ext = extend_all(rows_view(sub@), cv);
                assert(ext[i as int] == sub@[i as int]@.push(cv as usize));
                assert(path@ == ext[i as int]);
                assert(rows_view(all@) =~= rows_view(before).push(path@));
                assert(ext.subrange(0, i + 1) =~= ext.subrange(0, i as int).push(ext[i as int]));
                assert(rows_view(all@) =~= all0 + ext.subrange(0, i + 1));
            }
            i = i + 1;
        }
        proof {
            assert(extend_all(rows_view(sub@), cv).subrange(0, sub@.len() as int) =~= extend_all(
                rows_view(sub@),
                cv,
            ));
            assert(geo_paths_below(adj, s, cv, k, p + 1) == geo_paths_below(adj, s, cv, k, p as int)
                + extend_all(geo_paths(adj, s, p as int, (k - 1) as nat), cv));
        }
        bound = p + 1;
        t = t + 1;
    }
    proof {
        assert forall|u: int| bound <= u < adj.len() implies !#[trigger] is_parent(adj, s, cv, k, u) by {
            if is_parent(adj, s, cv, k, u) {
                assert(prow.contains(u as usize));
                let a = choose|a: int| 0 <= a < prow.len() && prow[a] == u as usize;
                assert(prow[a] <= prow[prow.len() - 1]);
            }
        }
        lemma_geo_skip(adj, s, cv, k, bound as int, adj.len() as int);
    }
    all
}

/// Convert vertex paths to chord paths.
fn to_chord_paths(chords: &[PcChord], paths: &Vec<Vec<usize>>) -> (r: Vec<Vec<PcChord>>)
    requires
        forall|x: int, i: int|
            0 <= x < paths@.len() && 0 <= i < paths@[x]@.len() ==> #[trigger] paths@[x]@[i]
                < chords@.len(),
    ensures
        chord_rows(r@) == paths_to_chords(chords@, rows_view(paths@)),
{
    let mut out: Vec<Vec<PcChord>> = Vec::new();
    let mut x: usize = 0;
    while x < paths.len()
        invariant
            0 <= x <= paths@.len(),
            forall|y: int, i: int|
                0 <= y < paths@.len() && 0 <= i < paths@[y]@.len() ==> #[trigger] paths@[y]@[i]
                    < chords@.len(),
            chord_rows(out@) == paths_to_chords(chords@, rows_view(paths@)).subrange(0, x as int),
        decreases paths@.len() - x,
    {
        let path = &paths[x];
        let mut cs: Vec<PcChord> = Vec::new();
        let mut i: usize = 0;
        while i < path.len()
            invariant
                0 <= i <= path@.len(),
                path@ == paths@[x as int]@,
                forall|j: int| 0 <= j < path@.len() ==> #[trigger] path@[j] < chords@.len(),
                cs@ == path@.map_values(|v: usize| chords@[v as int]).subrange(0, i as int),
            decreases path@.len() - i,
        {
            cs.push(chords[path[i]]);
            proof {
                assert(cs@ =~= path@.map_values(|v: usize| chords@[v as int]).subrange(0, i + 1));
            }
            i = i + 1;
        }
        proof {
            assert(cs@ =~= path@.map_values(|v: usize| chords@[v as int]));
        }
        let ghost before = out@;
        out.push(cs);
        proof {
            let pc = paths_to_chords(chords@, rows_view(paths@));
            assert(pc[x as int] == cs@);
            assert(chord_rows(out@) =~= chord_rows(before).push(cs@));
            assert(pc.subrange(0, x + 1) =~= pc.subrange(0, x as int).push(pc[x as int]));
            assert(chord_rows(out@) =~= paths_to_chords(chords@, rows_view(paths@)).subrange(
                0,
                x + 1,
            ));
        }
        x = x + 1;
    }
    assert(paths_to_chords(chords@, rows_view(paths@)).subrange(0, paths@.len() as int)
        =~= paths_to_chords(chords@, rows_view(paths@)));
    out
}

/// All shortest paths from chord `a` to chord `b`, each a sequence of chords
/// from `a` to `b`: those through each last-but-one chord in enumeration
/// order. Empty if either chord is not in the space or `b` is unreachable;
/// `[[a]]` if `a == b`.
pub fn geodesics(space: &BaseSpace, a: &PcChord, b: &PcChord) -> (r: Vec<Vec<PcChord>>)
    ensures
        chord_rows(r@) == space_geodesics(space, *a, *b),
{
    let n = space.len();
    let ghost adj = space.adj_view();
    let ai = match space.chord_index(a) {
        Some(i) => i,
        None => return Vec::new(),
    };
    let bi = match space.chord_index(b) {
        Some(i) => i,
        None => return Vec::new(),
    };
    proof {
        lemma_found_index(space, *a, ai as int);
        lemma_found_index(space, *b, bi as int);
    }
    let (dist, parents, _sigma) = bfs_with_parents(space, ai);
    proof {
        assert(bfs_vertex_ok(adj, ai as int, bi as int, dist@[bi as int], _sigma@[bi as int], parents@[bi as int]@));
    }
    let k = match dist[bi] {
        Some(k) => k,
        None => return Vec::new(),
    };
    proof {
        assert forall|v: int| 0 <= v < adj.len() implies parent_row(
            adj,
            ai as int,
            v,
            shortest_or0(adj, ai as int, v),
            adj.len() as int,
            #[trigger] parents@[v]@,
        ) by {
            assert(bfs_vertex_ok(adj, ai as int, v, dist@[v], _sigma@[v], parents@[v]@));
        }
        super::graph::lemma_shortest_some(adj, ai as int, bi as int, k as nat);
    }
    let index_paths = collect_paths(&parents, bi, ai, Ghost(adj), Ghost(k as nat));
    let chords = space.chords();
    proof {
        assert forall|x: int, i: int|
            0 <= x < index_paths@.len() && 0 <= i < index_paths@[x]@.len() implies #[trigger] index_paths@[x]@[i]
                < chords@.len() by {
            lemma_geo_sound(adj, ai as int, bi as int, k as nat, x);
            assert(rows_view(index_paths@)[x] == index_paths@[x]@);
            let p = index_paths@[x]@;
            if i < k {
                assert(edge(adj, p[i] as int, p[i + 1] as int));
            } else {
                assert(p[i] == bi);
            }
        }
    }
    to_chord_paths(chords, &index_paths)
}

/// Number of shortest paths from chord `a` to chord `b` (clamped to
/// `usize::MAX`): 0 if either chord is not in the space or `b` is
/// unreachable, 1 if `a == b`.
pub fn count_geodesics(space: &BaseSpace, a: &PcChord, b: &PcChord) -> (r: usize)
    ensures
        r == (if space.chords_view().contains(*a) && space.chords_view().contains(*b) {
            sat_usize(geo_count(space.adj_view(), chord_pos(space, *a), chord_pos(space, *b)))
        } else {
            0
        }),
{
    let n = space.len();
    let ai = match space.chord_index(a) {
        Some(i) => i,
        None => return 0,
    };
    let bi = match space.chord_index(b) {
        Some(i) => i,
        None => return 0,
    };
    proof {
        lemma_found_index(space, *a, ai as int);
        lemma_found_index(space, *b, bi as int);
    }
    if ai == bi {
        proof {
            assert(dist_is(space.adj_view(), ai as int, bi as int, 0));
            lemma_shortest_is(space.adj_view(), ai as int, bi as int, 0);
        }
        return 1;
    }
    let (dist, _parents, sigma) = bfs_with_parents(space, ai);
    proof {
        assert(bfs_vertex_ok(space.adj_view(), ai as int, bi as int, dist@[bi as int], sigma@[bi as int], _parents@[bi as int]@));
    }
    match dist[bi] {
        None => 0,
        Some(_) => sigma[bi],
    }
}

/// The chords metrically between `a` and `b`: every chord `z` other than
/// `a` and `b` with `d(a, z) + d(z, b) == d(a, b)`, in enumeration order.
/// Empty if either chord is missing, if `a == b`, or if `b` is unreachable.
pub fn passing_chords(space: &BaseSpace, a: &PcChord, b: &PcChord) -> (r: Vec<PcChord>)
    ensures
        r@ == space_passing(space, *a, *b),
{
    let n = space.len();
    let ai = match space.chord_index(a) {
        Some(i) => i,
        None => return Vec::new(),
    };
    let bi = match space.chord_index(b) {
        Some(i) => i,
        None => return Vec::new(),
    };
    proof {
        lemma_found_index(space, *a, ai as int);
        lemma_found_index(space, *b, bi as int);
    }
    if ai == bi {
        return Vec::new();
    }
    let dist_a = bfs_distances(space, ai);
    let dist_b = bfs_distances(space, bi);
    let d_ab = match dist_a[bi] {
        Some(d) => d,
        None => return Vec::new(),
    };
    let chords = space.chords();
    let mut result: Vec<PcChord> = Vec::new();
    let mut i: usize = 0;
    while i < n
        invariant
            0 <= i <= n,
            n == chords@.len(),
            dist_a@.len() == n,
            dist_b@.len() == n,
            result@ == between_list(chords@, dist_a@, dist_b@, ai as int, bi as int, d_ab, i as int),
        decreases n - i,
    {
        if i != ai && i != bi {
            match (dist_a[i], dist_b[i]) {
                (Some(da), Some(db)) => {
                    if da as u16 + db as u16 == d_ab as u16 {
                        result.push(chords[i]);
                    }
                },
                _ => {},
            }
        }
        i = i + 1;
    }
    result
}

/// Distances and numbers of shortest paths from a source chord to every
/// reachable chord, the source included (distance 0, one path).
#[derive(Debug, Clone, PartialEq, Eq)]
pub struct DistAndGeodesicCounts {
    /// Each reachable chord with its shortest-path distance, in enumeration order.
    pub distances: Vec<(PcChord, u8)>,
    /// Each reachable chord with its number of shortest paths, in enumeration order.
    pub geodesic_counts: Vec<(PcChord, u64)>,
}

/// Distances and shortest-path counts from `source` to every reachable
/// chord, from a single search; `None` if `source` is not in the space.
pub fn distances_and_geodesic_counts(space: &BaseSpace, source: &PcChord) -> (r: Option<DistAndGeodesicCounts>)
    ensures
        counts_match(r, space_counts(space, *source)),
{
    let n = space.len();
    let si = match space.chord_index(source) {
        Some(i) => i,
        None => return None,
    };
    proof {
        lemma_found_index(space, *source, si as int);
    }
    let ghost adj = space.adj_view();
    let (dist, _parents, sigma) = bfs_with_parents(space, si);
    let chords = space.chords();
    let mut distances: Vec<(PcChord, u8)> = Vec::new();
    let mut geodesic_counts: Vec<(PcChord, u64)> = Vec::new();
    let mut i: usize = 0;
    while i < n
        invariant
            0 <= i <= n,
            n == chords@.len(),
            n == adj.len(),
            chords@ == space.chords_view(),
            adj == space.adj_view(),
            dist@.len() == n,
            sigma@.len() == n,
            _parents@.len() == n,
            forall|v: int|
                0 <= v < n ==> bfs_vertex_ok(
                    adj,
                    si as int,
                    v,
                    #[trigger] dist@[v],
                    sigma@[v],
                    _parents@[v]@,
                ),
            distances@ == reach_list(chords@, dists_from(adj, si as int), i as int),
            geodesic_counts@ == count_list(chords@, adj, si as int, i as int),
        decreases n - i,
    {
        proof {
            assert(bfs_vertex_ok(adj, si as int, i as int, dist@[i as int], sigma@[i as int], _parents@[i as int]@));
        }
        match dist[i] {
            Some(k) => {
                let d: u8 = if k > 255 {
                    255
                } else {
                    k as u8
                };
                distances.push((chords[i], d));
                geodesic_counts.push((chords[i], sigma[i] as u64));
            },
            None => {},
        }
        i = i + 1;
    }
    Some(DistAndGeodesicCounts { distances, geodesic_counts })
}

} // verus!

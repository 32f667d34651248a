//! Laws of the shortest-path enumeration: every shortest path between two
//! chords is listed exactly once, and the per-source tables agree with the
//! single-pair queries.

use vstd::prelude::*;

use super::base_space::{adjacent_spec, base_space_wf, chord_key, BaseSpace};
use super::bfs::is_parent;
use super::distance::{chord_pos, dists_from, lemma_found_index, lemma_index_unique, reach_list};
use super::geodesics::{
    between_list, count_list, space_passing, extend_all, geo_count, geo_paths, geo_paths_below, is_geodesic, lemma_geo_count,
    lemma_geo_sound, paths_to_chords, space_counts, space_geodesics,
};
use super::graph::{dist_is, edge, lemma_shortest_some, sat_usize, shortest, within};
use super::metric::{lemma_distance_symmetric, space_distance};
use super::types::PcChord;

verus! {

/// A path extended by `v` is listed among the extensions of the paths that contain it.
proof fn lemma_extend_contains(ps: Seq<Seq<usize>>, q: Seq<usize>, v: int)
    requires
        ps.contains(q),
    ensures
        extend_all(ps, v).contains(q.push(v as usize)),
{
    let i = choose|i: int| 0 <= i < ps.len() && ps[i] == q;
    assert(extend_all(ps, v)[i] == q.push(v as usize));
}

/// The paths through parents below `m` include the extensions of the paths
/// to every parent `u < m`.
proof fn lemma_below_contains(adj: Seq<Seq<usize>>, s: int, v: int, k: nat, m: int, u: int, q: Seq<usize>)
    requires
        k > 0,
        0 <= u < m,
        is_parent(adj, s, v, k, u),
        geo_paths(adj, s, u, (k - 1) as nat).contains(q),
    ensures
        geo_paths_below(adj, s, v, k, m).contains(q.push(v as usize)),
    decreases m,
{
    let prev = geo_paths_below(adj, s, v, k, m - 1);
    if u == m - 1 {
        lemma_extend_contains(geo_paths(adj, s, u, (k - 1) as nat), q, v);
        let blk = extend_all(geo_paths(adj, s, u, (k - 1) as nat), v);
        let i = choose|i: int| 0 <= i < blk.len() && blk[i] == q.push(v as usize);
        assert(geo_paths_below(adj, s, v, k, m)[prev.len() + i] == q.push(v as usize));
    } else {
        lemma_below_contains(adj, s, v, k, m - 1, u, q);
        let i = choose|i: int| 0 <= i < prev.len() && prev[i] == q.push(v as usize);
        assert(geo_paths_below(adj, s, v, k, m)[i] == q.push(v as usize));
    }
}

/// **Every shortest path is listed.** Each path of `k` edges from `s` to
/// `v` whose `i`-th vertex lies at distance `i` is among `geo_paths`.
pub proof fn lemma_geo_complete(adj: Seq<Seq<usize>>, s: int, v: int, k: nat, p: Seq<usize>)
    requires
        is_geodesic(adj, s, v, k, p),
    ensures
        geo_paths(adj, s, v, k).contains(p),
    decreases k,
{
    if k == 0 {
        assert(p =~= seq![s as usize]);
        assert(geo_paths(adj, s, v, k)[0] == p);
    } else {
        let u = p[k - 1] as int;
        let q = p.drop_last();
        let j: int = k - 1;
        assert(edge(adj, p[j] as int, p[j + 1] as int));
        assert(dist_is(adj, s, p[k - 1] as int, (k - 1) as nat));
        assert forall|i: int| 0 <= i < k - 1 implies #[trigger] edge(adj, q[i] as int, q[i + 1] as int) by {
            assert(edge(adj, p[i] as int, p[i + 1] as int));
        }
        assert forall|i: int| 0 <= i <= k - 1 implies dist_is(adj, s, #[trigger] q[i] as int, i as nat) by {
            assert(dist_is(adj, s, p[i] as int, i as nat));
        }
        assert(is_geodesic(adj, s, u, (k - 1) as nat, q));
        lemma_geo_complete(adj, s, u, (k - 1) as nat, q);
        assert(is_parent(adj, s, v, k, u));
        lemma_below_contains(adj, s, v, k, adj.len() as int, u, q);
        assert(q.push(v as usize) =~= p);
    }
}

/// The listed shortest paths are pairwise different.
pub open spec fn no_repeats(ps: Seq<Seq<usize>>) -> bool {
    forall|i: int, j: int| 0 <= i < j < ps.len() ==> ps[i] != ps[j]
}

/// Every path has `k + 1` vertices, the last but one below `m`.
pub open spec fn last_hops_below(ps: Seq<Seq<usize>>, k: nat, m: int) -> bool {
    forall|x: int| 0 <= x < ps.len() ==> (#[trigger] ps[x]).len() == k + 1 && ps[x][k - 1] < m
}

/// **No shortest path is listed twice.**
pub proof fn lemma_geo_distinct(adj: Seq<Seq<usize>>, s: int, v: int, k: nat)
    requires
        adj.len() <= usize::MAX,
        0 <= s < adj.len(),
        0 <= v < adj.len(),
        dist_is(adj, s, v, k),
    ensures
        no_repeats(geo_paths(adj, s, v, k)),
    decreases k, 1int, 0int,
{
    if k > 0 {
        lemma_below_distinct(adj, s, v, k, adj.len() as int);
    }
}

#[verifier::spinoff_prover]
#[verifier::rlimit(30)]
proof fn lemma_below_distinct(adj: Seq<Seq<usize>>, s: int, v: int, k: nat, m: int)
    requires
        adj.len() <= usize::MAX,
        0 <= s < adj.len(),
        0 <= v < adj.len(),
        k > 0,
        m <= adj.len(),
        dist_is(adj, s, v, k),
    ensures
        no_repeats(geo_paths_below(adj, s, v, k, m)),
        last_hops_below(geo_paths_below(adj, s, v, k, m), k, m),
    decreases k, 0int, m,
{
    if m > 0 {
        lemma_below_distinct(adj, s, v, k, m - 1);
        let prev = geo_paths_below(adj, s, v, k, m - 1);
        let cur = geo_paths_below(adj, s, v, k, m);
        let u = m - 1;
        if is_parent(adj, s, v, k, u) {
            let sub = geo_paths(adj, s, u, (k - 1) as nat);
            lemma_geo_distinct(adj, s, u, (k - 1) as nat);
            assert forall|y: int| 0 <= y < sub.len() implies #[trigger] sub[y].len() == k && sub[y][k - 1] == u by {
                lemma_geo_sound(adj, s, u, (k - 1) as nat, y);
            }
            assert forall|x: int| 0 <= x < cur.len() implies (#[trigger] cur[x]).len() == k + 1 && cur[x][k - 1] < m by {
                if x < prev.len() {
                    assert(cur[x] == prev[x]);
                } else {
                    assert(cur[x] == sub[x - prev.len()].push(v as usize));
                }
            }
            assert forall|i: int, j: int| 0 <= i < j < cur.len() implies cur[i] != cur[j] by {
                if j >= prev.len() {
                    let qj = sub[j - prev.len()];
                    assert(cur[j] == qj.push(v as usize));
                    if i >= prev.len() {
                        let qi = sub[i - prev.len()];
                        assert(cur[i] == qi.push(v as usize));
                        if cur[i] == cur[j] {
                            assert(qi =~= cur[i].drop_last());
                            assert(qj =~= cur[j].drop_last());
                        }
                    } else {
                        assert(cur[i] == prev[i]);
                        assert(cur[i][k - 1] < m - 1);
                        assert(cur[j][k - 1] == u);
                    }
                }
            }
        } else {
            assert(cur =~= prev);
            assert forall|x: int| 0 <= x < cur.len() implies (#[trigger] cur[x]).len() == k + 1 && cur[x][k - 1] < m by {
                assert(cur[x] == prev[x]);
            }
        }
    }
}


// ───────────────────────── the chord-level statement ─────────────────────────

/// `q` is a shortest path of chords from `a` to `b` in the space: it starts
/// at `a`, ends at `b`, every chord lies in the space and is adjacent to the
/// next, and it has one chord more than the fewest edges from `a` to `b`.
pub open spec fn chord_geodesic(space: &BaseSpace, a: PcChord, b: PcChord, q: Seq<PcChord>) -> bool {
    let chords = space.chords_view();
    &&& chords.contains(a)
    &&& chords.contains(b)
    &&& shortest(space.adj_view(), chord_pos(space, a), chord_pos(space, b)) matches Some(d) && q.len() == d + 1
    &&& q[0] == a
    &&& q[q.len() - 1] == b
    &&& forall|j: int| 0 <= j < q.len() ==> chords.contains(#[trigger] q[j])
    &&& forall|j: int| 0 <= j < q.len() - 1 ==> adjacent_spec(#[trigger] q[j], q[j + 1])
}

/// An edge of the space's graph joins adjacent chords, and adjacent chords
/// of the space are joined by an edge.
proof fn lemma_edge_adjacent(space: &BaseSpace, u: int, v: int)
    requires
        base_space_wf(space.chords_view(), space.adj_view()),
        0 <= u < space.chords_view().len(),
        0 <= v < space.chords_view().len(),
    ensures
        edge(space.adj_view(), u, v) <==> adjacent_spec(space.chords_view()[u], space.chords_view()[v]),
{
    let chords = space.chords_view();
    assert(super::base_space::is_neighbor_row(chords, chords[u], space.adj_view()[u]));
}

/// A walk reaches its `j`-th vertex within `t + j` steps when its start is
/// reached within `t`.
proof fn lemma_walk_within(adj: Seq<Seq<usize>>, s: int, p: Seq<usize>, t: nat, j: int)
    requires
        0 <= j < p.len(),
        within(adj, s, p[0] as int, t),
        forall|i: int| 0 <= i < p.len() - 1 ==> #[trigger] edge(adj, p[i] as int, p[i + 1] as int),
    ensures
        within(adj, s, p[j] as int, t + j as nat),
    decreases j,
{
    if j > 0 {
        lemma_walk_within(adj, s, p, t, j - 1);
        let i = j - 1;
        assert(edge(adj, p[i] as int, p[i + 1] as int));
        assert(within(adj, s, p[j] as int, (t + j) as nat));
    }
}

/// A walk of `k` edges to a vertex at distance `k` reaches its `j`-th vertex
/// at distance exactly `j`.
proof fn lemma_walk_is_geodesic(adj: Seq<Seq<usize>>, s: int, v: int, k: nat, p: Seq<usize>)
    requires
        dist_is(adj, s, v, k),
        p.len() == k + 1,
        p[0] == s,
        p[k as int] == v,
        forall|i: int| 0 <= i < k ==> #[trigger] edge(adj, p[i] as int, p[i + 1] as int),
    ensures
        is_geodesic(adj, s, v, k, p),
{
    assert(within(adj, s, p[0] as int, 0));
    assert forall|j: int| 0 <= j <= k implies dist_is(adj, s, #[trigger] p[j] as int, j as nat) by {
        lemma_walk_within(adj, s, p, 0, j);
        if j > 0 && within(adj, s, p[j] as int, (j - 1) as nat) {
            let rest = p.subrange(j, (k + 1) as int);
            assert forall|i: int| 0 <= i < rest.len() - 1 implies #[trigger] edge(adj, rest[i] as int, rest[i + 1] as int) by {
                assert(edge(adj, p[j + i] as int, p[j + i + 1] as int));
            }
            lemma_walk_within(adj, s, rest, (j - 1) as nat, k - j);
            assert(rest[k - j] == v);
        }
    }
}

/// **Every shortest path between two chords is listed exactly once.** The
/// list of shortest paths between two chords of the space holds exactly the
/// shortest chord paths from the one to the other, each once, and as many
/// as the number of shortest paths.
pub proof fn lemma_geodesics_exact(space: &BaseSpace, a: PcChord, b: PcChord)
    requires
        base_space_wf(space.chords_view(), space.adj_view()),
        space.chords_view().contains(a),
        space.chords_view().contains(b),
    ensures
        space_geodesics(space, a, b).len() == geo_count(space.adj_view(), chord_pos(space, a), chord_pos(space, b)),
        forall|i: int|
            0 <= i < space_geodesics(space, a, b).len() ==> chord_geodesic(space, a, b, #[trigger] space_geodesics(space, a, b)[i]),
        forall|i: int, j: int|
            0 <= i < j < space_geodesics(space, a, b).len() ==> space_geodesics(space, a, b)[i] != space_geodesics(space, a, b)[j],
        forall|q: Seq<PcChord>| #[trigger] chord_geodesic(space, a, b, q) ==> space_geodesics(space, a, b).contains(q),
{
    let chords = space.chords_view();
    let adj = space.adj_view();
    let ia = chord_pos(space, a);
    let ib = chord_pos(space, b);
    space.lemma_views_bounded();
    lemma_found_index(space, a, chords.index_of(a));
    lemma_found_index(space, b, chords.index_of(b));
    if shortest(adj, ia, ib) is Some {
        let d = shortest(adj, ia, ib)->0;
        lemma_shortest_some(adj, ia, ib, d);
        let gp = geo_paths(adj, ia, ib, d);
        let ps = space_geodesics(space, a, b);
        assert(ps == paths_to_chords(chords, gp));
        lemma_geo_count(adj, ia, ib, d);
        lemma_geo_distinct(adj, ia, ib, d);
        assert forall|i: int| 0 <= i < gp.len() implies #[trigger] gp[i].len() == d + 1
            && (forall|j: int| 0 <= j <= d ==> (#[trigger] gp[i][j]) < chords.len()) by {
            lemma_geo_sound(adj, ia, ib, d, i);
            assert forall|j: int| 0 <= j <= d implies (#[trigger] gp[i][j]) < chords.len() by {
                if j < d {
                    assert(edge(adj, gp[i][j] as int, gp[i][j + 1] as int));
                } else if d > 0 {
                    assert(edge(adj, gp[i][j - 1] as int, gp[i][j - 1 + 1] as int));
                }
            }
        }
        assert forall|i: int| 0 <= i < ps.len() implies chord_geodesic(space, a, b, #[trigger] ps[i]) by {
            lemma_geo_sound(adj, ia, ib, d, i);
            let p = gp[i];
            let q = ps[i];
            assert(q == p.map_values(|x: usize| chords[x as int]));
            assert forall|j: int| 0 <= j < q.len() - 1 implies adjacent_spec(#[trigger] q[j], q[j + 1]) by {
                assert(edge(adj, p[j] as int, p[j + 1] as int));
                lemma_edge_adjacent(space, p[j] as int, p[j + 1] as int);
            }
        }
        assert forall|i: int, j: int| 0 <= i < j < ps.len() implies ps[i] != ps[j] by {
            if ps[i] == ps[j] {
                assert forall|x: int| 0 <= x <= d implies gp[i][x] == gp[j][x] by {
                    assert(ps[i][x] == chords[gp[i][x] as int]);
                    assert(ps[j][x] == chords[gp[j][x] as int]);
                    lemma_index_unique(chords, gp[i][x] as int, gp[j][x] as int);
                }
                assert(gp[i] =~= gp[j]);
            }
        }
        assert forall|q: Seq<PcChord>| #[trigger] chord_geodesic(space, a, b, q) implies ps.contains(q) by {
            let p = Seq::new(q.len(), |j: int| chords.index_of(q[j]) as usize);
            assert forall|j: int| 0 <= j < q.len() implies chords[p[j] as int] == q[j] && p[j] < chords.len() by {
                assert(chords.contains(q[j]));
                lemma_found_index(space, q[j], chords.index_of(q[j]));
            }
            assert forall|i: int| 0 <= i < d implies #[trigger] edge(adj, p[i] as int, p[i + 1] as int) by {
                assert(adjacent_spec(q[i], q[i + 1]));
                lemma_edge_adjacent(space, p[i] as int, p[i + 1] as int);
            }
            lemma_walk_is_geodesic(adj, ia, ib, d, p);
            lemma_geo_complete(adj, ia, ib, d, p);
            let x = choose|x: int| 0 <= x < gp.len() && gp[x] == p;
            assert(ps[x] =~= q);
        }
    } else {
        assert(space_geodesics(space, a, b) =~= seq![]);
    }
}


// ───────────────────────── the per-source tables ─────────────────────────

/// The distance list over the first `n` chords holds exactly the pairs of a
/// chord among them and its known distance.
proof fn lemma_reach_list_members(chords: Seq<PcChord>, ds: Seq<Option<u8>>, n: int, c: PcChord, d: u8)
    requires
        0 <= n <= chords.len(),
        n <= ds.len(),
    ensures
        reach_list(chords, ds, n).contains((c, d)) <==> exists|i: int| 0 <= i < n && chords[i] == c && ds[i] == Some(d),
    decreases n,
{
    if n > 0 {
        lemma_reach_list_members(chords, ds, n - 1, c, d);
        let prev = reach_list(chords, ds, n - 1);
        let cur = reach_list(chords, ds, n);
        if ds[n - 1] is Some {
            assert(cur == prev.push((chords[n - 1], ds[n - 1]->0)));
            if cur.contains((c, d)) && !prev.contains((c, d)) {
                let x = choose|x: int| 0 <= x < cur.len() && cur[x] == (c, d);
                assert(x == prev.len());
                assert(chords[n - 1] == c && ds[n - 1] == Some(d));
            }
            if exists|i: int| 0 <= i < n && chords[i] == c && ds[i] == Some(d) {
                let i = choose|i: int| 0 <= i < n && chords[i] == c && ds[i] == Some(d);
                if i == n - 1 {
                    assert(cur[prev.len() as int] == (c, d));
                } else {
                    let x = choose|x: int| 0 <= x < prev.len() && prev[x] == (c, d);
                    assert(cur[x] == (c, d));
                }
            }
        }
    }
}

/// The count list over the first `n` chords holds exactly the pairs of a
/// reachable chord among them and its clamped number of shortest paths.
proof fn lemma_count_list_members(chords: Seq<PcChord>, adj: Seq<Seq<usize>>, s: int, n: int, c: PcChord, m: u64)
    requires
        0 <= n <= chords.len(),
    ensures
        count_list(chords, adj, s, n).contains((c, m)) <==> exists|i: int|
            0 <= i < n && chords[i] == c && shortest(adj, s, i) is Some && m == sat_usize(geo_count(adj, s, i)) as u64,
    decreases n,
{
    if n > 0 {
        lemma_count_list_members(chords, adj, s, n - 1, c, m);
        let prev = count_list(chords, adj, s, n - 1);
        let cur = count_list(chords, adj, s, n);
        if shortest(adj, s, n - 1) is Some {
            let e = (chords[n - 1], sat_usize(geo_count(adj, s, n - 1)) as u64);
            assert(cur == prev.push(e));
            if cur.contains((c, m)) && !prev.contains((c, m)) {
                let x = choose|x: int| 0 <= x < cur.len() && cur[x] == (c, m);
                assert(x == prev.len());
            }
            if exists|i: int| 0 <= i < n && chords[i] == c && shortest(adj, s, i) is Some && m == sat_usize(geo_count(adj, s, i)) as u64 {
                let i = choose|i: int| 0 <= i < n && chords[i] == c && shortest(adj, s, i) is Some && m == sat_usize(geo_count(adj, s, i)) as u64;
                if i == n - 1 {
                    assert(cur[prev.len() as int] == (c, m));
                } else {
                    let x = choose|x: int| 0 <= x < prev.len() && prev[x] == (c, m);
                    assert(cur[x] == (c, m));
                }
            }
        }
    }
}

/// **The per-source tables agree with the single-pair queries.** For a
/// chord of the space, its distance table holds exactly the pairs of a
/// reachable chord and its distance, and its count table exactly the pairs
/// of a reachable chord and its number of shortest paths (clamped as
/// `count_geodesics` clamps it).
pub proof fn lemma_tables_agree(space: &BaseSpace, source: PcChord, c: PcChord, d: u8, m: u64)
    requires
        base_space_wf(space.chords_view(), space.adj_view()),
        space.chords_view().contains(source),
    ensures
        space_counts(space, source) is Some,
        ({
            let tables = space_counts(space, source)->0;
            &&& tables.0.contains((c, d)) <==> space_distance(space, source, c) == Some(d)
            &&& tables.1.contains((c, m)) <==> (space_distance(space, source, c) is Some && m == sat_usize(
                geo_count(space.adj_view(), chord_pos(space, source), chord_pos(space, c)),
            ) as u64)
        }),
{
    let chords = space.chords_view();
    let adj = space.adj_view();
    let si = chord_pos(space, source);
    let n = chords.len() as int;
    lemma_found_index(space, source, chords.index_of(source));
    lemma_reach_list_members(chords, dists_from(adj, si), n, c, d);
    lemma_count_list_members(chords, adj, si, n, c, m);
    if chords.contains(c) {
        lemma_found_index(space, c, chords.index_of(c));
        assert forall|i: int| 0 <= i < n && chords[i] == c implies i == chord_pos(space, c) by {
            lemma_found_index(space, c, i);
        }
    }
}


// ───────────────────────── the chords between two chords ─────────────────────────

/// The test that puts vertex `i` between `a` and `b`.
pub open spec fn between_at(da: Seq<Option<u8>>, db: Seq<Option<u8>>, a: int, b: int, dab: u8, i: int) -> bool {
    i != a && i != b && da[i] is Some && db[i] is Some && da[i]->0 + db[i]->0 == dab
}

/// The chords listed between `a` and `b` over the first `n` vertices: each
/// comes from a vertex below `n` that passes the test, every such vertex
/// gives one, and they come in increasing order of the chords' keys.
proof fn lemma_between_members(
    chords: Seq<PcChord>,
    da: Seq<Option<u8>>,
    db: Seq<Option<u8>>,
    a: int,
    b: int,
    dab: u8,
    n: int,
)
    requires
        0 <= n <= chords.len(),
        n <= da.len(),
        n <= db.len(),
        forall|i: int, j: int| 0 <= i < j < chords.len() ==> chord_key(#[trigger] chords[i]) < chord_key(#[trigger] chords[j]),
    ensures
        forall|z: PcChord| #[trigger] between_list(chords, da, db, a, b, dab, n).contains(z) <==> exists|i: int|
            0 <= i < n && chords[i] == z && between_at(da, db, a, b, dab, i),
        forall|x: int| 0 <= x < between_list(chords, da, db, a, b, dab, n).len() ==> exists|i: int|
            0 <= i < n && chords[i] == #[trigger] between_list(chords, da, db, a, b, dab, n)[x],
        forall|x: int, y: int|
            0 <= x < y < between_list(chords, da, db, a, b, dab, n).len() ==> chord_key(
                #[trigger] between_list(chords, da, db, a, b, dab, n)[x],
            ) < chord_key(#[trigger] between_list(chords, da, db, a, b, dab, n)[y]),
    decreases n,
{
    if n > 0 {
        lemma_between_members(chords, da, db, a, b, dab, n - 1);
        let prev = between_list(chords, da, db, a, b, dab, n - 1);
        let cur = between_list(chords, da, db, a, b, dab, n);
        let i = n - 1;
        if between_at(da, db, a, b, dab, i) {
            assert(cur == prev.push(chords[i]));
            assert forall|x: int| 0 <= x < prev.len() implies chord_key(#[trigger] prev[x]) < chord_key(chords[i]) by {
                let j = choose|j: int| 0 <= j < n - 1 && chords[j] == prev[x];
            }
            assert forall|x: int| 0 <= x < cur.len() implies exists|j: int| 0 <= j < n && chords[j] == #[trigger] cur[x] by {
                if x < prev.len() {
                    assert(cur[x] == prev[x]);
                    let j = choose|j: int| 0 <= j < n - 1 && chords[j] == prev[x];
                } else {
                    assert(cur[x] == chords[i]);
                }
            }
            assert forall|x: int, y: int| 0 <= x < y < cur.len() implies chord_key(#[trigger] cur[x]) < chord_key(#[trigger] cur[y]) by {
                assert(cur[x] == prev[x]);
                if y < prev.len() {
                    assert(cur[y] == prev[y]);
                }
            }
            assert forall|z: PcChord| #[trigger] cur.contains(z) <==> exists|j: int| 0 <= j < n && chords[j] == z && between_at(da, db, a, b, dab, j) by {
                if cur.contains(z) && !prev.contains(z) {
                    let x = choose|x: int| 0 <= x < cur.len() && cur[x] == z;
                    assert(x == prev.len());
                }
                if exists|j: int| 0 <= j < n && chords[j] == z && between_at(da, db, a, b, dab, j) {
                    let j = choose|j: int| 0 <= j < n && chords[j] == z && between_at(da, db, a, b, dab, j);
                    if j == i {
                        assert(cur[prev.len() as int] == z);
                    } else {
                        assert(prev.contains(z));
                        let x = choose|x: int| 0 <= x < prev.len() && prev[x] == z;
                        assert(cur[x] == z);
                    }
                }
            }
        } else {
            assert(cur == prev);
        }
    }
}

/// **The chords between two chords.** For distinct chords `a` and `b` of
/// the space, the chords listed between them are exactly the chords `z` of
/// the space, other than `a` and `b`, with `d(a, z) + d(z, b) == d(a, b)`,
/// in the order of the space (increasing keys), each once.
#[verifier::spinoff_prover]
#[verifier::rlimit(40)]
pub proof fn lemma_passing_exact(space: &BaseSpace, a: PcChord, b: PcChord, z: PcChord)
    requires
        base_space_wf(space.chords_view(), space.adj_view()),
        space.chords_view().contains(a),
        space.chords_view().contains(b),
        a != b,
        space_distance(space, a, b) is Some,
    ensures
        space_passing(space, a, b).contains(z) <==> (space.chords_view().contains(z) && z != a && z != b
            && space_distance(space, a, z) is Some && space_distance(space, z, b) is Some
            && space_distance(space, a, z)->0 + space_distance(space, z, b)->0 == space_distance(space, a, b)->0),
        forall|x: int, y: int|
            0 <= x < y < space_passing(space, a, b).len() ==> chord_key(#[trigger] space_passing(space, a, b)[x])
                < chord_key(#[trigger] space_passing(space, a, b)[y]),
{
    let chords = space.chords_view();
    let adj = space.adj_view();
    let ia = chord_pos(space, a);
    let ib = chord_pos(space, b);
    lemma_found_index(space, a, chords.index_of(a));
    lemma_found_index(space, b, chords.index_of(b));
    let da = dists_from(adj, ia);
    let db = dists_from(adj, ib);
    let dab = super::distance::dist_u8(adj, ia, ib)->0;
    assert(space_passing(space, a, b) == between_list(chords, da, db, ia, ib, dab, chords.len() as int));
    assert(forall|i: int, j: int| 0 <= i < j < chords.len() ==> chord_key(#[trigger] chords[i]) < chord_key(#[trigger] chords[j]));
    lemma_between_members(chords, da, db, ia, ib, dab, chords.len() as int);
    lemma_distance_symmetric(space, z, b);
    if chords.contains(z) {
        let iz = chord_pos(space, z);
        lemma_found_index(space, z, chords.index_of(z));
        assert(da[iz] == space_distance(space, a, z));
        assert(db[iz] == space_distance(space, b, z));
        assert forall|i: int| 0 <= i < chords.len() && chords[i] == z implies i == iz by {
            lemma_found_index(space, z, i);
        }
    }
}

} // verus!

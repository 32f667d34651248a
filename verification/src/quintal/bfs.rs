//! Breadth-first search over the base space graph, recording distances,
//! shortest-path parents and shortest-path counts.

use vstd::prelude::*;
use vstd::set_lib::{lemma_len_subset, set_int_range};

use super::base_space::{base_space_wf, is_neighbor_row, BaseSpace};
use super::graph::{
    dist_is, edge, lemma_dist_unique, lemma_sat_add, lemma_shortest_is, lemma_stable,
    lemma_walks_within, lemma_within_mono, sat_usize, shortest, walk_sum, walks, within,
};

verus! {

/// `row` lists, increasing, exactly the vertices `u < bound` at distance
/// `k - 1` with an edge into `v`.
pub open spec fn parent_row(
    adj: Seq<Seq<usize>>,
    s: int,
    v: int,
    k: nat,
    bound: int,
    row: Seq<usize>,
) -> bool {
    &&& forall|a: int, b: int| 0 <= a < b < row.len() ==> row[a] < row[b]
    &&& forall|a: int| 0 <= a < row.len() ==> row[a] < bound
    &&& forall|u: int| 0 <= u < bound ==> (row.contains(u as usize) <==> #[trigger] is_parent(adj, s, v, k, u))
}

/// `u` is a shortest-path parent of `v` at distance `k`: it lies at distance
/// `k - 1` and has an edge into `v`.
pub open spec fn is_parent(adj: Seq<Seq<usize>>, s: int, v: int, k: nat, u: int) -> bool {
    k > 0 && edge(adj, u, v) && dist_is(adj, s, u, (k - 1) as nat)
}

/// What a finished search from `s` holds for every vertex `v`.
pub open spec fn bfs_vertex_ok(
    adj: Seq<Seq<usize>>,
    s: int,
    v: int,
    dv: Option<usize>,
    sv: usize,
    pv: Seq<usize>,
) -> bool {
    &&& match dv {
        Some(k) => shortest(adj, s, v) == Some(k as nat) && sv == sat_usize(walks(adj, s, v, k as nat)),
        None => shortest(adj, s, v) is None && sv == 0,
    }
    &&& parent_row(adj, s, v, match dv {
        Some(k) => k as nat,
        None => 0,
    }, adj.len() as int, pv)
}

/// The views of the rows of a vector of vectors.
pub open spec fn rows_view(p: Seq<Vec<usize>>) -> Seq<Seq<usize>> {
    Seq::new(p.len(), |i: int| p[i]@)
}

/// The state of the search before expanding layer `d`.
spec fn settled(
    adj: Seq<Seq<usize>>,
    s: int,
    d: nat,
    v: int,
    dv: Option<usize>,
    sv: usize,
    pv: Seq<usize>,
) -> bool {
    match dv {
        Some(k) => k <= d && dist_is(adj, s, v, k as nat) && sv == sat_usize(
            walks(adj, s, v, k as nat),
        ) && parent_row(adj, s, v, k as nat, adj.len() as int, pv),
        None => sv == 0 && pv.len() == 0 && !within(adj, s, v, d),
    }
}

spec fn layer_inv(
    adj: Seq<Seq<usize>>,
    s: int,
    d: nat,
    dist: Seq<Option<usize>>,
    sigma: Seq<usize>,
    parents: Seq<Seq<usize>>,
) -> bool {
    &&& adj.len() <= usize::MAX
    &&& dist.len() == adj.len()
    &&& sigma.len() == adj.len()
    &&& parents.len() == adj.len()
    &&& forall|v: int|
        0 <= v < adj.len() ==> settled(adj, s, d, v, #[trigger] dist[v], sigma[v], parents[v])
}

/// Some vertex `w < u` at distance `d` has an edge into `v`.
spec fn reached_before(adj: Seq<Seq<usize>>, s: int, d: nat, u: int, v: int) -> bool {
    exists|w: int| 0 <= w < u && #[trigger] edge(adj, w, v) && dist_is(adj, s, w, d)
}

/// The vertices marked as reached.
spec fn some_set(dist: Seq<Option<usize>>) -> Set<int> {
    Set::new(|v: int| 0 <= v < dist.len() && dist[v] is Some)
}

proof fn lemma_some_set_len(dist: Seq<Option<usize>>)
    ensures
        some_set(dist).finite(),
        some_set(dist).len() <= dist.len(),
{
    vstd::set_lib::lemma_int_range(0, dist.len() as int);
    assert(some_set(dist).subset_of(set_int_range(0, dist.len() as int)));
    lemma_len_subset(some_set(dist), set_int_range(0, dist.len() as int));
}

proof fn lemma_some_set_grows(a: Seq<Option<usize>>, b: Seq<Option<usize>>, x: int)
    requires
        a.len() == b.len(),
        forall|v: int| 0 <= v < a.len() && a[v] is Some ==> b[v] is Some,
        0 <= x < a.len(),
        a[x] is None,
        b[x] is Some,
    ensures
        some_set(a).len() < some_set(b).len(),
{
    lemma_some_set_len(a);
    lemma_some_set_len(b);
    assert(some_set(a).subset_of(some_set(b).remove(x)));
    lemma_len_subset(some_set(a), some_set(b).remove(x));
}

/// Walk counts over vertices whose walks all vanish sum to zero.
proof fn lemma_walk_sum_zero(adj: Seq<Seq<usize>>, s: int, v: int, k: nat, m: int)
    requires
        forall|w: int| 0 <= w < m && adj[w].contains(v as usize) ==> walks(adj, s, w, k) == 0,
    ensures
        walk_sum(adj, s, v, k, m) == 0,
    decreases m,
{
    if m > 0 {
        lemma_walk_sum_zero(adj, s, v, k, m - 1);
        assert(adj[m - 1].contains(v as usize) ==> walks(adj, s, m - 1, k) == 0);
    }
}

/// In layer `d`, a vertex not yet reached within `d` receives no walks of
/// `d` edges through a predecessor that is not at distance `d`.
proof fn lemma_no_shortcut(
    adj: Seq<Seq<usize>>,
    s: int,
    d: nat,
    dist: Seq<Option<usize>>,
    sigma: Seq<usize>,
    parents: Seq<Seq<usize>>,
    w: int,
    v: int,
)
    requires
        layer_inv(adj, s, d, dist, sigma, parents),
        0 <= w < adj.len(),
        0 <= v < adj.len(),
        edge(adj, w, v),
        !within(adj, s, v, d),
        !dist_is(adj, s, w, d),
    ensures
        walks(adj, s, w, d) == 0,
{
    if walks(adj, s, w, d) > 0 {
        lemma_walks_within(adj, s, w, d);
        assert(settled(adj, s, d, w, dist[w], sigma[w], parents[w]));
        let k = dist[w]->0;
        assert(k <= d && dist_is(adj, s, w, k as nat));
        assert(k < d);
        assert(within(adj, s, v, (k + 1) as nat));
        lemma_within_mono(adj, s, v, (k + 1) as nat, d);
    }
}

/// Progress of the expansion of layer `d` after scanning the vertices `w < u`.
spec fn progress(
    adj: Seq<Seq<usize>>,
    s: int,
    d: nat,
    u: int,
    dist0: Seq<Option<usize>>,
    sigma0: Seq<usize>,
    par0: Seq<Seq<usize>>,
    dist: Seq<Option<usize>>,
    sigma: Seq<usize>,
    parents: Seq<Seq<usize>>,
) -> bool {
    &&& adj.len() <= usize::MAX
    &&& d + 1 <= usize::MAX
    &&& dist.len() == adj.len()
    &&& sigma.len() == adj.len()
    &&& parents.len() == adj.len()
    &&& forall|v: int|
        0 <= v < adj.len() && #[trigger] dist0[v] is Some ==> dist[v] == dist0[v] && sigma[v]
            == sigma0[v] && parents[v] == par0[v]
    &&& forall|v: int|
        0 <= v < adj.len() && #[trigger] dist0[v] is None ==> ((dist[v] is None && sigma[v] == 0
            && parents[v].len() == 0 && !reached_before(adj, s, d, u, v)) || (dist[v] == Some(
            (d + 1) as usize,
        ) && reached_before(adj, s, d, u, v) && sigma[v] == sat_usize(walk_sum(adj, s, v, d, u))
            && parent_row(adj, s, v, (d + 1) as nat, u, parents[v])))
}

/// Progress while scanning the row of the vertex `u` at distance `d`, after
/// its first `t` entries.
spec fn row_progress(
    adj: Seq<Seq<usize>>,
    s: int,
    d: nat,
    u: int,
    t: int,
    dist0: Seq<Option<usize>>,
    sigma0: Seq<usize>,
    par0: Seq<Seq<usize>>,
    dist: Seq<Option<usize>>,
    sigma: Seq<usize>,
    parents: Seq<Seq<usize>>,
) -> bool {
    &&& adj.len() <= usize::MAX
    &&& d + 1 <= usize::MAX
    &&& dist.len() == adj.len()
    &&& sigma.len() == adj.len()
    &&& parents.len() == adj.len()
    &&& forall|v: int|
        0 <= v < adj.len() && #[trigger] dist0[v] is Some ==> dist[v] == dist0[v] && sigma[v]
            == sigma0[v] && parents[v] == par0[v]
    &&& forall|v: int|
        0 <= v < adj.len() && #[trigger] dist0[v] is None ==> {
            let inp = adj[u].subrange(0, t).contains(v as usize);
            ||| dist[v] is None && sigma[v] == 0 && parents[v].len() == 0 && !reached_before(
                adj,
                s,
                d,
                u,
                v,
            ) && !inp
            ||| dist[v] == Some((d + 1) as usize) && (reached_before(adj, s, d, u, v) || inp)
                && sigma[v] == sat_usize(
                walk_sum(adj, s, v, d, u) + if inp {
                    walks(adj, s, u, d)
                } else {
                    0nat
                },
            ) && if inp {
                parents[v].len() > 0 && parents[v].last() == u && parent_row(
                    adj,
                    s,
                    v,
                    (d + 1) as nat,
                    u,
                    parents[v].drop_last(),
                )
            } else {
                parent_row(adj, s, v, (d + 1) as nat, u, parents[v])
            }
        }
}

proof fn lemma_row_start(
    adj: Seq<Seq<usize>>,
    s: int,
    d: nat,
    u: int,
    dist0: Seq<Option<usize>>,
    sigma0: Seq<usize>,
    par0: Seq<Seq<usize>>,
    dist: Seq<Option<usize>>,
    sigma: Seq<usize>,
    parents: Seq<Seq<usize>>,
)
    requires
        0 <= u < adj.len(),
        progress(adj, s, d, u, dist0, sigma0, par0, dist, sigma, parents),
    ensures
        row_progress(adj, s, d, u, 0, dist0, sigma0, par0, dist, sigma, parents),
{
    assert forall|v: int| 0 <= v < adj.len() && #[trigger] dist0[v] is None implies !adj[u].subrange(0, 0).contains(v as usize) by {}
}

proof fn lemma_row_done(
    adj: Seq<Seq<usize>>,
    s: int,
    d: nat,
    u: int,
    dist0: Seq<Option<usize>>,
    sigma0: Seq<usize>,
    par0: Seq<Seq<usize>>,
    dist: Seq<Option<usize>>,
    sigma: Seq<usize>,
    parents: Seq<Seq<usize>>,
)
    requires
        0 <= u < adj.len(),
        dist_is(adj, s, u, d),
        forall|a: int| 0 <= a < adj[u].len() ==> adj[u][a] < adj.len(),
        row_progress(adj, s, d, u, adj[u].len() as int, dist0, sigma0, par0, dist, sigma, parents),
    ensures
        progress(adj, s, d, u + 1, dist0, sigma0, par0, dist, sigma, parents),
{
    let row = adj[u];
    assert(row.subrange(0, row.len() as int) =~= row);
    assert forall|v: int| 0 <= v < adj.len() && #[trigger] dist0[v] is None implies ((dist[v] is None
        && sigma[v] == 0 && parents[v].len() == 0 && !reached_before(adj, s, d, u + 1, v)) || (
    dist[v] == Some((d + 1) as usize) && reached_before(adj, s, d, u + 1, v) && sigma[v]
        == sat_usize(walk_sum(adj, s, v, d, u + 1)) && parent_row(
        adj,
        s,
        v,
        (d + 1) as nat,
        u + 1,
        parents[v],
    ))) by {
        let inrow = row.contains(v as usize);
        assert(inrow == edge(adj, u, v));
        if inrow {
            assert(reached_before(adj, s, d, u + 1, v));
            let p = parents[v];
            let q = p.drop_last();
            assert(dist[v] is Some);
            assert(parent_row(adj, s, v, (d + 1) as nat, u, q));
            assert(p =~= q.push(u as usize));
            assert forall|a: int, b: int| 0 <= a < b < p.len() implies p[a] < p[b] by {
                if b < q.len() {
                    assert(q[a] < q[b]);
                } else {
                    assert(q[a] < u);
                }
            }
            assert forall|w: int| 0 <= w < u + 1 implies (p.contains(w as usize) <==> #[trigger] is_parent(adj, s, v, (d + 1) as nat, w)) by {
                if w < u {
                    if p.contains(w as usize) {
                        let a = choose|a: int| 0 <= a < p.len() && p[a] == w as usize;
                        if a < q.len() {
                            assert(q[a] == w as usize);
                            assert(q.contains(w as usize));
                        } else {
                            assert(p[a] == u);
                        }
                    }
                    if q.contains(w as usize) {
                        let a = choose|a: int| 0 <= a < q.len() && q[a] == w as usize;
                        assert(p[a] == w as usize);
                    }
                } else {
                    assert(p[p.len() - 1] == u);
                }
            }
            assert forall|a: int| 0 <= a < p.len() implies p[a] < u + 1 by {
                if a < q.len() {
                    assert(q[a] < u);
                }
            }
            assert(parent_row(adj, s, v, (d + 1) as nat, u + 1, p));
        } else {
            if reached_before(adj, s, d, u + 1, v) {
                let w = choose|w: int|
                    0 <= w < u + 1 && #[trigger] edge(adj, w, v) && dist_is(adj, s, w, d);
                assert(w != u);
                assert(reached_before(adj, s, d, u, v));
            }
        }
    }
}

/// A vertex that is not a parent leaves a parent row unchanged when the bound grows past it.
proof fn lemma_parent_row_extend(adj: Seq<Seq<usize>>, s: int, v: int, k: nat, u: int, row: Seq<usize>)
    requires
        0 <= u <= usize::MAX,
        parent_row(adj, s, v, k, u, row),
        !is_parent(adj, s, v, k, u),
    ensures
        parent_row(adj, s, v, k, u + 1, row),
{
    assert forall|a: int| 0 <= a < row.len() implies row[a] < u + 1 by {
        assert(row[a] < u);
    }
    assert forall|w: int| 0 <= w < u + 1 implies (row.contains(w as usize) <==> #[trigger] is_parent(adj, s, v, k, w)) by {
        if w == u {
            assert(w == u);
            if row.contains(w as usize) {
                let a = choose|a: int| 0 <= a < row.len() && row[a] == w as usize;
                assert(row[a] < u);
                assert(false);
            }
        }
    }
}

proof fn lemma_skip_vertex(
    adj: Seq<Seq<usize>>,
    s: int,
    d: nat,
    u: int,
    dist0: Seq<Option<usize>>,
    sigma0: Seq<usize>,
    par0: Seq<Seq<usize>>,
    dist: Seq<Option<usize>>,
    sigma: Seq<usize>,
    parents: Seq<Seq<usize>>,
)
    requires
        0 <= u < adj.len(),
        layer_inv(adj, s, d, dist0, sigma0, par0),
        dist0[u] != Some(d as usize),
        progress(adj, s, d, u, dist0, sigma0, par0, dist, sigma, parents),
    ensures
        progress(adj, s, d, u + 1, dist0, sigma0, par0, dist, sigma, parents),
{
    assert(!dist_is(adj, s, u, d)) by {
        if dist_is(adj, s, u, d) {
            assert(settled(adj, s, d, u, dist0[u], sigma0[u], par0[u]));
            lemma_dist_unique(adj, s, u, dist0[u]->0 as nat, d);
        }
    }
    assert forall|v: int| 0 <= v < adj.len() && #[trigger] dist0[v] is None implies ((dist[v] is None
        && sigma[v] == 0 && parents[v].len() == 0 && !reached_before(adj, s, d, u + 1, v)) || (
    dist[v] == Some((d + 1) as usize) && reached_before(adj, s, d, u + 1, v) && sigma[v]
        == sat_usize(walk_sum(adj, s, v, d, u + 1)) && parent_row(
        adj,
        s,
        v,
        (d + 1) as nat,
        u + 1,
        parents[v],
    ))) by {
        if reached_before(adj, s, d, u + 1, v) {
            let w = choose|w: int|
                0 <= w < u + 1 && #[trigger] edge(adj, w, v) && dist_is(adj, s, w, d);
            assert(w != u);
            assert(reached_before(adj, s, d, u, v));
        }
        assert(settled(adj, s, d, v, dist0[v], sigma0[v], par0[v]));
        assert(!within(adj, s, v, d));
        if dist[v] is Some {
            assert(dist[v] == Some((d + 1) as usize) && reached_before(adj, s, d, u, v) && sigma[v]
                == sat_usize(walk_sum(adj, s, v, d, u)) && parent_row(adj, s, v, (d + 1) as nat, u, parents[v]));
            assert forall|a: int| 0 <= a < parents[v].len() implies parents[v][a] < u + 1 by {
                assert(parents[v][a] < u);
            }
            if adj[u].contains(v as usize) {
                assert(edge(adj, u, v));
                lemma_no_shortcut(adj, s, d, dist0, sigma0, par0, u, v);
            }
            assert(walk_sum(adj, s, v, d, u + 1) == walk_sum(adj, s, v, d, u));
            assert(sigma[v] == sat_usize(walk_sum(adj, s, v, d, u + 1)));
            assert(parent_row(adj, s, v, (d + 1) as nat, u, parents[v]));
            lemma_parent_row_extend(adj, s, v, (d + 1) as nat, u, parents[v]);
            assert(parent_row(adj, s, v, (d + 1) as nat, u + 1, parents[v]));
            assert(reached_before(adj, s, d, u + 1, v)) by {
                let w = choose|w: int| 0 <= w < u && #[trigger] edge(adj, w, v) && dist_is(adj, s, w, d);
                assert(0 <= w < u + 1 && edge(adj, w, v) && dist_is(adj, s, w, d));
            }
        }
    }
}

proof fn lemma_layer_done_vertex(
    adj: Seq<Seq<usize>>,
    s: int,
    d: nat,
    dist0: Seq<Option<usize>>,
    sigma0: Seq<usize>,
    par0: Seq<Seq<usize>>,
    dist: Seq<Option<usize>>,
    sigma: Seq<usize>,
    parents: Seq<Seq<usize>>,
    v: int,
)
    requires
        layer_inv(adj, s, d, dist0, sigma0, par0),
        progress(adj, s, d, adj.len() as int, dist0, sigma0, par0, dist, sigma, parents),
        0 <= v < adj.len(),
    ensures
        settled(adj, s, (d + 1) as nat, v, dist[v], sigma[v], parents[v]),
{
    let n = adj.len();
    assert(settled(adj, s, d, v, dist0[v], sigma0[v], par0[v]));
    if dist0[v] is Some {
        assert(dist[v] == dist0[v] && sigma[v] == sigma0[v] && parents[v] == par0[v]);
    } else if dist[v] is Some {
        assert(reached_before(adj, s, d, n as int, v));
        let w = choose|w: int| 0 <= w < n && #[trigger] edge(adj, w, v) && dist_is(adj, s, w, d);
        assert(edge(adj, w, v) && within(adj, s, w, d));
        assert(within(adj, s, v, (d + 1) as nat));
        assert(!within(adj, s, v, d));
        assert(dist_is(adj, s, v, (d + 1) as nat));
        assert(walks(adj, s, v, (d + 1) as nat) == walk_sum(adj, s, v, d, n as int));
    } else {
        assert(!reached_before(adj, s, d, n as int, v));
        if within(adj, s, v, (d + 1) as nat) {
            assert(!within(adj, s, v, d));
            let w = choose|w: int| #[trigger] edge(adj, w, v) && within(adj, s, w, d);
            assert(settled(adj, s, d, w, dist0[w], sigma0[w], par0[w]));
            let k = dist0[w]->0;
            if (k as int) < (d as int) {
                assert(within(adj, s, v, (k + 1) as nat));
                lemma_within_mono(adj, s, v, (k + 1) as nat, d);
            } else {
                assert(dist_is(adj, s, w, d));
                assert(reached_before(adj, s, d, n as int, v));
            }
        }
    }
}

proof fn lemma_layer_done(
    adj: Seq<Seq<usize>>,
    s: int,
    d: nat,
    dist0: Seq<Option<usize>>,
    sigma0: Seq<usize>,
    par0: Seq<Seq<usize>>,
    dist: Seq<Option<usize>>,
    sigma: Seq<usize>,
    parents: Seq<Seq<usize>>,
)
    requires
        layer_inv(adj, s, d, dist0, sigma0, par0),
        progress(adj, s, d, adj.len() as int, dist0, sigma0, par0, dist, sigma, parents),
    ensures
        layer_inv(adj, s, (d + 1) as nat, dist, sigma, parents),
        dist == dist0 ==> forall|v: int| #[trigger] within(adj, s, v, (d + 1) as nat) ==> within(
            adj,
            s,
            v,
            d,
        ),
{
    let n = adj.len();
    assert forall|v: int| 0 <= v < n implies settled(adj, s, (d + 1) as nat, v, #[trigger] dist[v], sigma[v], parents[v]) by {
        lemma_layer_done_vertex(adj, s, d, dist0, sigma0, par0, dist, sigma, parents, v);
    }
    if dist == dist0 {
        assert forall|v: int| #[trigger] within(adj, s, v, (d + 1) as nat) implies within(adj, s, v, d) by {
            if !within(adj, s, v, d) {
                let w = choose|w: int| #[trigger] edge(adj, w, v) && within(adj, s, w, d);
                assert(0 <= v < n);
                lemma_layer_done_vertex(adj, s, d, dist0, sigma0, par0, dist, sigma, parents, v);
                assert(settled(adj, s, (d + 1) as nat, v, dist[v], sigma[v], parents[v]));
                assert(settled(adj, s, d, v, dist0[v], sigma0[v], par0[v]));
                if dist0[v] is Some {
                    lemma_within_mono(adj, s, v, dist0[v]->0 as nat, d);
                }
            }
        }
    }
}

/// Expand layer `d`: every vertex first reached at distance `d + 1` is
/// marked, its shortest-path count is the sum over its parents, and its
/// parents are recorded.
fn expand_layer(
    space: &BaseSpace,
    s: usize,
    d: usize,
    dist: &mut Vec<Option<usize>>,
    sigma: &mut Vec<usize>,
    parents: &mut Vec<Vec<usize>>,
) -> (changed: bool)
    requires
        base_space_wf(space.chords_view(), space.adj_view()),
        s < space.adj_view().len(),
        d + 1 <= usize::MAX,
        layer_inv(space.adj_view(), s as int, d as nat, old(dist)@, old(sigma)@, rows_view(old(parents)@)),
    ensures
        changed ==> layer_inv(space.adj_view(), s as int, (d + 1) as nat, final(dist)@, final(sigma)@, rows_view(final(parents)@)),
        changed ==> some_set(old(dist)@).len() < some_set(final(dist)@).len(),
        !changed ==> final(dist)@ == old(dist)@ && final(sigma)@ == old(sigma)@ && rows_view(final(parents)@) == rows_view(old(parents)@),
        !changed ==> forall|v: int| #[trigger] within(space.adj_view(), s as int, v, (d + 1) as nat) ==> within(space.adj_view(), s as int, v, d as nat),
{
    let ghost adj = space.adj_view();
    let ghost sv = s as int;
    let ghost dn = d as nat;
    let ghost dist0 = dist@;
    let ghost sigma0 = sigma@;
    let ghost par0 = rows_view(parents@);
    let n = space.len();
    let mut changed = false;
    let mut u: usize = 0;
    proof {
        assert(rows_view(parents@) =~= par0);
    }
    while u < n
        invariant
            0 <= u <= n,
            n == adj.len(),
            adj == space.adj_view(),
            base_space_wf(space.chords_view(), adj),
            sv == s,
            dn == d,
            s < n,
            d + 1 <= usize::MAX,
            layer_inv(adj, sv, dn, dist0, sigma0, par0),
            parents@.len() == n,
            progress(adj, sv, dn, u as int, dist0, sigma0, par0, dist@, sigma@, rows_view(parents@)),
            !changed ==> dist@ == dist0 && sigma@ == sigma0 && rows_view(parents@) == par0,
            changed ==> some_set(dist0).len() < some_set(dist@).len(),
            forall|v: int| 0 <= v < n && dist0[v] is Some ==> #[trigger] dist@[v] is Some,
        decreases n - u,
    {
        let du = dist[u];
        if du == Some(d) {
            let row = space.neighbors_by_index(u);
            proof {
                assert(settled(adj, sv, dn, u as int, dist0[u as int], sigma0[u as int], par0[u as int]));
                assert(is_neighbor_row(space.chords_view(), space.chords_view()[u as int], adj[u as int]));
                lemma_row_start(adj, sv, dn, u as int, dist0, sigma0, par0, dist@, sigma@, rows_view(parents@));
            }
            let su = sigma[u];
            let mut t: usize = 0;
            while t < row.len()
                invariant
                    0 <= t <= row@.len(),
                    row@ == adj[u as int],
                    forall|a: int| 0 <= a < row@.len() ==> row@[a] < n,
                    forall|a: int, b: int| 0 <= a < b < row@.len() ==> row@[a] < row@[b],
                    0 <= u < n,
                    n == adj.len(),
                    adj == space.adj_view(),
                    sv == s,
                    dn == d,
                    d + 1 <= usize::MAX,
                    dist0[u as int] == Some(d),
                    dist_is(adj, sv, u as int, dn),
                    su == sat_usize(walks(adj, sv, u as int, dn)),
                    layer_inv(adj, sv, dn, dist0, sigma0, par0),
                    parents@.len() == n,
                    row_progress(adj, sv, dn, u as int, t as int, dist0, sigma0, par0, dist@, sigma@, rows_view(parents@)),
                    !changed ==> dist@ == dist0 && sigma@ == sigma0 && rows_view(parents@) == par0,
                    changed ==> some_set(dist0).len() < some_set(dist@).len(),
                    forall|v: int| 0 <= v < n && dist0[v] is Some ==> #[trigger] dist@[v] is Some,
                decreases row@.len() - t,
            {
                let v = row[t];
                let ghost dist_b = dist@;
                let ghost sigma_b = sigma@;
                let ghost par_b = rows_view(parents@);
                proof {
                    assert(edge(adj, u as int, v as int));
                    lemma_row_step_facts(row@, t as int);
                }
                let dv = dist[v];
                match dv {
                    None => {
                        proof {
                            lemma_first_reach_sum(adj, sv, dn, u as int, t as int, dist0, sigma0, par0, dist@, sigma@, rows_view(parents@), v as int);
                        }
                        dist[v] = Some(d + 1);
                        sigma[v] = su;
                        parents[v].push(u);
                        proof {
                            lemma_some_set_grows(dist_b, dist@, v as int);
                            lemma_some_set_grows(dist0, dist@, v as int);
                            assert(rows_view(parents@) =~= par_b.update(v as int, par_b[v as int].push(u)));
                            lemma_row_step(adj, sv, dn, u as int, t as int, dist0, sigma0, par0, dist_b, sigma_b, par_b, dist@, sigma@, rows_view(parents@), v as int);
                        }
                        changed = true;
                    },
                    Some(x) => {
                        if x == d + 1 {
                            proof {
                                lemma_sat_add(walk_sum(adj, sv, v as int, dn, u as int), walks(adj, sv, u as int, dn));
                            }
                            let nv = sigma[v].saturating_add(su);
                            sigma[v] = nv;
                            parents[v].push(u);
                            proof {
                                assert(rows_view(parents@) =~= par_b.update(v as int, par_b[v as int].push(u)));
                                lemma_row_step(adj, sv, dn, u as int, t as int, dist0, sigma0, par0, dist_b, sigma_b, par_b, dist@, sigma@, rows_view(parents@), v as int);
                            }
                        } else {
                            proof {
                                lemma_row_step(adj, sv, dn, u as int, t as int, dist0, sigma0, par0, dist_b, sigma_b, par_b, dist@, sigma@, rows_view(parents@), v as int);
                            }
                        }
                    },
                }
                t = t + 1;
            }
            proof {
                lemma_row_done(adj, sv, dn, u as int, dist0, sigma0, par0, dist@, sigma@, rows_view(parents@));
            }
        } else {
            proof {
                lemma_skip_vertex(adj, sv, dn, u as int, dist0, sigma0, par0, dist@, sigma@, rows_view(parents@));
            }
        }
        u = u + 1;
    }
    proof {
        lemma_layer_done(adj, sv, dn, dist0, sigma0, par0, dist@, sigma@, rows_view(parents@));
    }
    changed
}

/// Facts about consecutive prefixes of a strictly increasing row.
proof fn lemma_row_step_facts(row: Seq<usize>, t: int)
    requires
        0 <= t < row.len(),
        forall|a: int, b: int| 0 <= a < b < row.len() ==> row[a] < row[b],
    ensures
        !row.subrange(0, t).contains(row[t]),
        row.subrange(0, t + 1).contains(row[t]),
        forall|x: usize| x != row[t] ==> (#[trigger] row.subrange(0, t + 1).contains(x) == row.subrange(0, t).contains(x)),
{
    let pre0 = row.subrange(0, t);
    let pre1 = row.subrange(0, t + 1);
    if pre0.contains(row[t]) {
        let a = choose|a: int| 0 <= a < pre0.len() && pre0[a] == row[t];
        assert(row[a] < row[t]);
    }
    assert(pre1[t] == row[t]);
    assert forall|x: usize| x != row[t] implies (#[trigger] pre1.contains(x) == pre0.contains(x)) by {
        if pre1.contains(x) {
            let a = choose|a: int| 0 <= a < pre1.len() && pre1[a] == x;
            assert(pre0[a] == x);
        }
        if pre0.contains(x) {
            let a = choose|a: int| 0 <= a < pre0.len() && pre0[a] == x;
            assert(pre1[a] == x);
        }
    }
}

/// A vertex first reached through `u` has no walks of `d` edges through
/// earlier vertices.
proof fn lemma_first_reach_sum(
    adj: Seq<Seq<usize>>,
    s: int,
    d: nat,
    u: int,
    t: int,
    dist0: Seq<Option<usize>>,
    sigma0: Seq<usize>,
    par0: Seq<Seq<usize>>,
    dist: Seq<Option<usize>>,
    sigma: Seq<usize>,
    parents: Seq<Seq<usize>>,
    v: int,
)
    requires
        0 <= u < adj.len(),
        0 <= v < adj.len(),
        layer_inv(adj, s, d, dist0, sigma0, par0),
        row_progress(adj, s, d, u, t, dist0, sigma0, par0, dist, sigma, parents),
        dist[v] is None,
    ensures
        dist0[v] is None,
        !reached_before(adj, s, d, u, v),
        !adj[u].subrange(0, t).contains(v as usize),
        walk_sum(adj, s, v, d, u) == 0,
        sigma[v] == 0,
        parents[v].len() == 0,
{
    if dist0[v] is Some {
        assert(dist[v] == dist0[v]);
    }
    assert(settled(adj, s, d, v, dist0[v], sigma0[v], par0[v]));
    assert forall|w: int| 0 <= w < u && adj[w].contains(v as usize) implies walks(adj, s, w, d) == 0 by {
        assert(edge(adj, w, v));
        if dist_is(adj, s, w, d) {
            assert(reached_before(adj, s, d, u, v));
        }
        lemma_no_shortcut(adj, s, d, dist0, sigma0, par0, w, v);
    }
    lemma_walk_sum_zero(adj, s, v, d, u);
}

/// One entry of the row of `u` processed.
proof fn lemma_row_step(
    adj: Seq<Seq<usize>>,
    s: int,
    d: nat,
    u: int,
    t: int,
    dist0: Seq<Option<usize>>,
    sigma0: Seq<usize>,
    par0: Seq<Seq<usize>>,
    dist_b: Seq<Option<usize>>,
    sigma_b: Seq<usize>,
    par_b: Seq<Seq<usize>>,
    dist: Seq<Option<usize>>,
    sigma: Seq<usize>,
    parents: Seq<Seq<usize>>,
    v: int,
)
    requires
        0 <= u < adj.len(),
        0 <= t < adj[u].len(),
        v == adj[u][t],
        0 <= v < adj.len(),
        forall|a: int, b: int| 0 <= a < b < adj[u].len() ==> adj[u][a] < adj[u][b],
        dist_is(adj, s, u, d),
        layer_inv(adj, s, d, dist0, sigma0, par0),
        row_progress(adj, s, d, u, t, dist0, sigma0, par0, dist_b, sigma_b, par_b),
        forall|x: int| 0 <= x < adj.len() && x != v ==> dist[x] == dist_b[x] && sigma[x] == sigma_b[x] && parents[x] == par_b[x],
        dist.len() == adj.len(),
        sigma.len() == adj.len(),
        parents.len() == adj.len(),
        dist_b[v] is None ==> dist[v] == Some((d + 1) as usize) && sigma[v] == sat_usize(walks(adj, s, u, d)) && parents[v] == par_b[v].push(u as usize) && walk_sum(adj, s, v, d, u) == 0 && par_b[v].len() == 0 && dist0[v] is None,
        dist_b[v] == Some((d + 1) as usize) ==> dist[v] == dist_b[v] && sigma[v] == sat_usize((sat_usize(walk_sum(adj, s, v, d, u)) + sat_usize(walks(adj, s, u, d))) as nat) && parents[v] == par_b[v].push(u as usize),
        dist_b[v] is Some && dist_b[v] != Some((d + 1) as usize) ==> dist[v] == dist_b[v] && sigma[v] == sigma_b[v] && parents[v] == par_b[v],
    ensures
        row_progress(adj, s, d, u, t + 1, dist0, sigma0, par0, dist, sigma, parents),
{
    lemma_row_step_facts(adj[u], t);
    let pre0 = adj[u].subrange(0, t);
    let pre1 = adj[u].subrange(0, t + 1);
    assert forall|x: int| 0 <= x < adj.len() && #[trigger] dist0[x] is Some implies dist[x] == dist0[x] && sigma[x] == sigma0[x] && parents[x] == par0[x] by {
        if x == v {
            assert(dist_b[v] == dist0[v] && sigma_b[v] == sigma0[v] && par_b[v] == par0[v]);
            assert(settled(adj, s, d, v, dist0[v], sigma0[v], par0[v]));
            assert(dist_b[v] != Some((d + 1) as usize));
        } else {
            assert(dist_b[x] == dist0[x] && sigma_b[x] == sigma0[x] && par_b[x] == par0[x]);
        }
    }
    assert forall|x: int| 0 <= x < adj.len() && #[trigger] dist0[x] is None implies {
        let inp = pre1.contains(x as usize);
        ||| dist[x] is None && sigma[x] == 0 && parents[x].len() == 0 && !reached_before(adj, s, d, u, x) && !inp
        ||| dist[x] == Some((d + 1) as usize) && (reached_before(adj, s, d, u, x) || inp)
            && sigma[x] == sat_usize(walk_sum(adj, s, x, d, u) + if inp { walks(adj, s, u, d) } else { 0nat })
            && if inp {
                parents[x].len() > 0 && parents[x].last() == u && parent_row(adj, s, x, (d + 1) as nat, u, parents[x].drop_last())
            } else {
                parent_row(adj, s, x, (d + 1) as nat, u, parents[x])
            }
    } by {
        if x != v {
            assert((x as usize) != adj[u][t]);
            assert(pre1.contains(x as usize) == pre0.contains(x as usize));
        } else {
            assert(pre1.contains(x as usize));
            assert(!pre0.contains(x as usize));
            if dist_b[v] is None {
                assert(parents[v].drop_last() =~= par_b[v]);
            } else {
                assert(parents[v].drop_last() =~= par_b[v]);
                lemma_sat_add(walk_sum(adj, s, v, d, u), walks(adj, s, u, d));
            }
        }
    }
}

/// Breadth-first search from `source`, recording for every vertex its
/// shortest-path distance, the list of its shortest-path parents, and the
/// number of shortest paths reaching it (saturating at `usize::MAX`).
pub fn bfs_with_parents(space: &BaseSpace, source: usize) -> (r: (
    Vec<Option<usize>>,
    Vec<Vec<usize>>,
    Vec<usize>,
))
    requires
        source < space.chords_view().len(),
    ensures
        r.0@.len() == space.adj_view().len(),
        r.1@.len() == space.adj_view().len(),
        r.2@.len() == space.adj_view().len(),
        forall|v: int|
            0 <= v < space.adj_view().len() ==> bfs_vertex_ok(
                space.adj_view(),
                source as int,
                v,
                #[trigger] r.0@[v],
                r.2@[v],
                r.1@[v]@,
            ),
{
    let n = space.len();
    let ghost adj = space.adj_view();
    let ghost sv = source as int;
    let mut dist: Vec<Option<usize>> = Vec::new();
    let mut sigma: Vec<usize> = Vec::new();
    let mut parents: Vec<Vec<usize>> = Vec::new();
    let mut i: usize = 0;
    while i < n
        invariant
            0 <= i <= n,
            dist@.len() == i,
            sigma@.len() == i,
            parents@.len() == i,
            forall|v: int| 0 <= v < i ==> #[trigger] dist@[v] is None && sigma@[v] == 0 && parents@[v]@.len() == 0,
        decreases n - i,
    {
        dist.push(None);
        sigma.push(0);
        parents.push(Vec::new());
        i = i + 1;
    }
    dist[source] = Some(0);
    sigma[source] = 1;
    let mut d: usize = 0;
    let mut going = true;
    proof {
        assert forall|v: int| 0 <= v < n implies settled(adj, sv, 0, v, #[trigger] dist@[v], sigma@[v], rows_view(parents@)[v]) by {
            if v == sv {
                assert(dist_is(adj, sv, v, 0));
                assert(parent_row(adj, sv, v, 0, n as int, rows_view(parents@)[v]));
            }
        }
        lemma_some_set_len(dist@);
        assert(some_set(dist@).contains(sv));
        assert(some_set(dist@).len() >= 1) by {
            assert(set![sv].subset_of(some_set(dist@)));
            lemma_len_subset(set![sv], some_set(dist@));
        }
    }
    while going
        invariant
            n == adj.len(),
            adj == space.adj_view(),
            base_space_wf(space.chords_view(), adj),
            sv == source,
            source < n,
            layer_inv(adj, sv, d as nat, dist@, sigma@, rows_view(parents@)),
            some_set(dist@).len() >= d + 1,
            !going ==> forall|v: int| #[trigger] within(adj, sv, v, (d + 1) as nat) ==> within(adj, sv, v, d as nat),
        decreases n - some_set(dist@).len() + if going { 1int } else { 0int },
    {
        proof {
            lemma_some_set_len(dist@);
        }
        let ghost before = some_set(dist@).len();
        let changed = expand_layer(space, source, d, &mut dist, &mut sigma, &mut parents);
        if changed {
            d = d + 1;
        } else {
            going = false;
        }
        proof {
            lemma_some_set_len(dist@);
        }
    }
    proof {
        assert forall|v: int| 0 <= v < n implies bfs_vertex_ok(adj, sv, v, #[trigger] dist@[v], sigma@[v], parents@[v]@) by {
            assert(settled(adj, sv, d as nat, v, dist@[v], sigma@[v], rows_view(parents@)[v]));
            match dist@[v] {
                Some(k) => {
                    lemma_shortest_is(adj, sv, v, k as nat);
                },
                None => {
                    if shortest(adj, sv, v) is Some {
                        let k = shortest(adj, sv, v)->0;
                        let e = choose|e: nat| dist_is(adj, sv, v, e);
                        if k <= d {
                            lemma_within_mono(adj, sv, v, k, d as nat);
                        } else {
                            lemma_stable(adj, sv, v, d as nat, (k - d) as nat);
                        }
                    }
                    assert(parents@[v]@ =~= seq![]);
                },
            }
        }
    }
    (dist, parents, sigma)
}

} // verus!

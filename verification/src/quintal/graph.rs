//! Shortest-path notions on an adjacency-list graph, used to state what the
//! breadth-first searches over the base space compute.

use vstd::prelude::*;

verus! {

/// There is an edge from `u` to `v`: `v` occurs in the adjacency row of `u`.
pub open spec fn edge(adj: Seq<Seq<usize>>, u: int, v: int) -> bool {
    0 <= u < adj.len() && 0 <= v < adj.len() && adj[u].contains(v as usize)
}

/// `v` can be reached from `s` by a walk of at most `k` edges.
pub open spec fn within(adj: Seq<Seq<usize>>, s: int, v: int, k: nat) -> bool
    decreases k,
{
    if k == 0 {
        v == s
    } else {
        within(adj, s, v, (k - 1) as nat) || exists|u: int|
            #[trigger] edge(adj, u, v) && within(adj, s, u, (k - 1) as nat)
    }
}

/// The shortest-path distance from `s` to `v` is exactly `d`.
pub open spec fn dist_is(adj: Seq<Seq<usize>>, s: int, v: int, d: nat) -> bool {
    within(adj, s, v, d) && (d == 0 || !within(adj, s, v, (d - 1) as nat))
}

/// The shortest-path distance from `s` to `v`, or `None` when `v` cannot be reached.
pub open spec fn shortest(adj: Seq<Seq<usize>>, s: int, v: int) -> Option<nat> {
    if exists|d: nat| dist_is(adj, s, v, d) {
        Some(choose|d: nat| dist_is(adj, s, v, d))
    } else {
        None
    }
}

/// Number of walks of exactly `k` edges from `s` to `v`. For `k` equal to
/// the shortest-path distance these are exactly the shortest paths.
pub open spec fn walks(adj: Seq<Seq<usize>>, s: int, v: int, k: nat) -> nat
    decreases k, 0int, 0int,
{
    if k == 0 {
        if v == s {
            1
        } else {
            0
        }
    } else {
        walk_sum(adj, s, v, (k - 1) as nat, adj.len() as int)
    }
}

/// Sum, over the vertices `u < m` with an edge into `v`, of the number of
/// walks of `k` edges from `s` to `u`.
pub open spec fn walk_sum(adj: Seq<Seq<usize>>, s: int, v: int, k: nat, m: int) -> nat
    decreases k, 1int, m,
{
    if m <= 0 {
        0
    } else {
        walk_sum(adj, s, v, k, m - 1) + if adj[m - 1].contains(v as usize) {
            walks(adj, s, m - 1, k)
        } else {
            0
        }
    }
}

/// `x` clamped to the range of `usize`.
pub open spec fn sat_usize(x: nat) -> int {
    if x > usize::MAX {
        usize::MAX as int
    } else {
        x as int
    }
}

/// `x` clamped to the range of `u8`.
pub open spec fn sat_u8(x: nat) -> u8 {
    if x > 255 {
        255u8
    } else {
        x as u8
    }
}

/// Reachability within `k` steps is monotone in `k`.
pub proof fn lemma_within_mono(adj: Seq<Seq<usize>>, s: int, v: int, k: nat, j: nat)
    requires
        within(adj, s, v, k),
        k <= j,
    ensures
        within(adj, s, v, j),
    decreases j - k,
{
    if k < j {
        lemma_within_mono(adj, s, v, k, (j - 1) as nat);
    }
}

/// A reachable vertex has a (least) shortest-path distance.
pub proof fn lemma_least(adj: Seq<Seq<usize>>, s: int, v: int, k: nat)
    requires
        within(adj, s, v, k),
    ensures
        exists|d: nat| d <= k && dist_is(adj, s, v, d),
    decreases k,
{
    if k > 0 && within(adj, s, v, (k - 1) as nat) {
        lemma_least(adj, s, v, (k - 1) as nat);
    } else {
        assert(dist_is(adj, s, v, k));
    }
}

/// The shortest-path distance is unique.
pub proof fn lemma_dist_unique(adj: Seq<Seq<usize>>, s: int, v: int, d1: nat, d2: nat)
    requires
        dist_is(adj, s, v, d1),
        dist_is(adj, s, v, d2),
    ensures
        d1 == d2,
{
    if d1 < d2 {
        lemma_within_mono(adj, s, v, d1, (d2 - 1) as nat);
    }
    if d2 < d1 {
        lemma_within_mono(adj, s, v, d2, (d1 - 1) as nat);
    }
}

/// `dist_is` determines `shortest`.
pub proof fn lemma_shortest_is(adj: Seq<Seq<usize>>, s: int, v: int, d: nat)
    requires
        dist_is(adj, s, v, d),
    ensures
        shortest(adj, s, v) == Some(d),
{
    let c = choose|e: nat| dist_is(adj, s, v, e);
    lemma_dist_unique(adj, s, v, c, d);
}

/// A vertex with a shortest-path distance `d` is reached within any bound `k >= d`,
/// and not within any bound below `d`.
pub proof fn lemma_shortest_some(adj: Seq<Seq<usize>>, s: int, v: int, k: nat)
    requires
        shortest(adj, s, v) is Some,
    ensures
        dist_is(adj, s, v, shortest(adj, s, v)->0),
        within(adj, s, v, k) <==> shortest(adj, s, v)->0 <= k,
{
    let d = shortest(adj, s, v)->0;
    if k >= d {
        lemma_within_mono(adj, s, v, d, k);
    } else if within(adj, s, v, k) {
        lemma_within_mono(adj, s, v, k, (d - 1) as nat);
    }
}

/// A positive number of walks of `k` edges implies reachability within `k`.
pub proof fn lemma_walks_within(adj: Seq<Seq<usize>>, s: int, v: int, k: nat)
    requires
        walks(adj, s, v, k) > 0,
        0 <= v < adj.len(),
    ensures
        within(adj, s, v, k),
    decreases k, 0int, 0int,
{
    if k > 0 {
        lemma_walk_sum_within(adj, s, v, (k - 1) as nat, adj.len() as int);
    }
}

proof fn lemma_walk_sum_within(adj: Seq<Seq<usize>>, s: int, v: int, k: nat, m: int)
    requires
        walk_sum(adj, s, v, k, m) > 0,
        m <= adj.len(),
        0 <= v < adj.len(),
    ensures
        within(adj, s, v, k + 1),
    decreases k, 1int, m,
{
    if m > 0 {
        if walk_sum(adj, s, v, k, m - 1) > 0 {
            lemma_walk_sum_within(adj, s, v, k, m - 1);
        } else {
            let u = m - 1;
            assert(adj[u].contains(v as usize));
            assert(walks(adj, s, u, k) > 0);
            lemma_walks_within(adj, s, u, k);
            assert(edge(adj, u, v));
        }
    }
}

/// If no vertex is first reached at distance `d + 1`, nothing new is ever reached.
pub proof fn lemma_stable(adj: Seq<Seq<usize>>, s: int, v: int, d: nat, j: nat)
    requires
        forall|w: int| #[trigger] within(adj, s, w, d + 1) ==> within(adj, s, w, d),
    ensures
        within(adj, s, v, d + j) ==> within(adj, s, v, d),
    decreases j,
{
    if j > 0 {
        lemma_stable(adj, s, v, d, (j - 1) as nat);
        if within(adj, s, v, d + j) && !within(adj, s, v, (d + j - 1) as nat) {
            let u = choose|u: int| #[trigger] edge(adj, u, v) && within(adj, s, u, (d + j - 1) as nat);
            lemma_stable(adj, s, u, d, (j - 1) as nat);
            assert(within(adj, s, v, d + 1));
        }
    }
}

/// Clamping commutes with addition of non-negative numbers.
pub proof fn lemma_sat_add(a: nat, b: nat)
    ensures
        sat_usize((sat_usize(a) + sat_usize(b)) as nat) == sat_usize(a + b),
{
}

} // verus!

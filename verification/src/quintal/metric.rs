//! The shortest-path distance of the base space is a metric: zero exactly
//! from a chord to itself, symmetric, and obeying the triangle inequality.

use vstd::prelude::*;

use super::base_space::{adjacent_spec, base_space_wf, has_pc, semitone_apart, BaseSpace};
use super::distance::{chord_pos, dist_u8};
use super::graph::{
    dist_is, edge, lemma_least, lemma_shortest_is, lemma_within_mono, sat_u8, shortest, within,
};
use super::types::PcChord;

verus! {

/// The distance between two chords as [`super::distance::distance`] reports
/// it: `None` unless both are in the space and connected.
pub open spec fn space_distance(space: &BaseSpace, a: PcChord, b: PcChord) -> Option<u8> {
    if space.chords_view().contains(a) && space.chords_view().contains(b) {
        dist_u8(space.adj_view(), chord_pos(space, a), chord_pos(space, b))
    } else {
        None
    }
}

/// Every edge of the graph can be walked both ways.
pub open spec fn symmetric(adj: Seq<Seq<usize>>) -> bool {
    forall|u: int, v: int| #[trigger] edge(adj, u, v) ==> edge(adj, v, u)
}

/// Voice-leading adjacency is symmetric.
proof fn lemma_adjacent_symmetric(a: PcChord, b: PcChord)
    requires
        adjacent_spec(a, b),
    ensures
        adjacent_spec(b, a),
{
    let (i, j) = choose|i: int, j: int|
        0 <= i < 4 && 0 <= j < 4 && !has_pc(b, #[trigger] a.pcs[i]) && !has_pc(a, #[trigger] b.pcs[j])
            && semitone_apart(a.pcs[i], b.pcs[j]);
    assert(semitone_apart(b.pcs[j], a.pcs[i]));
    assert(0 <= j < 4 && 0 <= i < 4 && !has_pc(a, b.pcs[j]) && !has_pc(b, a.pcs[i]));
}

/// The adjacency graph of a well-formed base space is symmetric.
proof fn lemma_space_symmetric(chords: Seq<PcChord>, adj: Seq<Seq<usize>>)
    requires
        base_space_wf(chords, adj),
    ensures
        symmetric(adj),
{
    assert forall|u: int, v: int| #[trigger] edge(adj, u, v) implies edge(adj, v, u) by {
        assert(super::base_space::is_neighbor_row(chords, chords[u], adj[u]));
        assert(super::base_space::is_neighbor_row(chords, chords[v], adj[v]));
        assert(adjacent_spec(chords[u], chords[v]));
        lemma_adjacent_symmetric(chords[u], chords[v]);
    }
}

/// A walk can be extended at its start by an edge into its first vertex.
proof fn lemma_within_prepend(adj: Seq<Seq<usize>>, t: int, s: int, v: int, k: nat)
    requires
        edge(adj, t, s),
        within(adj, s, v, k),
    ensures
        within(adj, t, v, k + 1),
    decreases k,
{
    if k == 0 {
        assert(within(adj, t, t, 0));
        assert(edge(adj, t, v) && within(adj, t, t, 0));
    } else if within(adj, s, v, (k - 1) as nat) {
        lemma_within_prepend(adj, t, s, v, (k - 1) as nat);
        lemma_within_mono(adj, t, v, k, k + 1);
    } else {
        let u = choose|u: int| #[trigger] edge(adj, u, v) && within(adj, s, u, (k - 1) as nat);
        lemma_within_prepend(adj, t, s, u, (k - 1) as nat);
        assert(edge(adj, u, v) && within(adj, t, u, k));
    }
}

/// In a symmetric graph a walk can be followed backwards.
proof fn lemma_within_reverse(adj: Seq<Seq<usize>>, s: int, v: int, k: nat)
    requires
        symmetric(adj),
        within(adj, s, v, k),
    ensures
        within(adj, v, s, k),
    decreases k,
{
    if k > 0 {
        if within(adj, s, v, (k - 1) as nat) {
            lemma_within_reverse(adj, s, v, (k - 1) as nat);
            lemma_within_mono(adj, v, s, (k - 1) as nat, k);
        } else {
            let u = choose|u: int| #[trigger] edge(adj, u, v) && within(adj, s, u, (k - 1) as nat);
            lemma_within_reverse(adj, s, u, (k - 1) as nat);
            assert(edge(adj, v, u));
            lemma_within_prepend(adj, v, u, s, (k - 1) as nat);
        }
    }
}

/// Two walks that meet can be joined.
proof fn lemma_within_concat(adj: Seq<Seq<usize>>, a: int, b: int, c: int, i: nat, j: nat)
    requires
        within(adj, a, b, i),
        within(adj, b, c, j),
    ensures
        within(adj, a, c, i + j),
    decreases j,
{
    if j == 0 {
        lemma_within_mono(adj, a, b, i, i + j);
    } else if within(adj, b, c, (j - 1) as nat) {
        lemma_within_concat(adj, a, b, c, i, (j - 1) as nat);
        lemma_within_mono(adj, a, c, (i + j - 1) as nat, i + j);
    } else {
        let u = choose|u: int| #[trigger] edge(adj, u, c) && within(adj, b, u, (j - 1) as nat);
        lemma_within_concat(adj, a, b, u, i, (j - 1) as nat);
        assert(edge(adj, u, c) && within(adj, a, u, (i + j - 1) as nat));
    }
}

/// In a symmetric graph the shortest-path distance is symmetric.
proof fn lemma_shortest_symmetric(adj: Seq<Seq<usize>>, s: int, v: int)
    requires
        symmetric(adj),
    ensures
        shortest(adj, s, v) == shortest(adj, v, s),
{
    if shortest(adj, s, v) is Some {
        let d = choose|d: nat| dist_is(adj, s, v, d);
        lemma_shortest_is(adj, s, v, d);
        lemma_within_reverse(adj, s, v, d);
        if d > 0 && within(adj, v, s, (d - 1) as nat) {
            lemma_within_reverse(adj, v, s, (d - 1) as nat);
        }
        assert(dist_is(adj, v, s, d));
        lemma_shortest_is(adj, v, s, d);
    } else if shortest(adj, v, s) is Some {
        let d = choose|d: nat| dist_is(adj, v, s, d);
        lemma_within_reverse(adj, v, s, d);
        if d > 0 && within(adj, s, v, (d - 1) as nat) {
            lemma_within_reverse(adj, s, v, (d - 1) as nat);
        }
        assert(dist_is(adj, s, v, d));
    }
}

/// **Metric law: identity.** A chord of the space is at distance 0 from
/// itself, and only from itself.
pub proof fn lemma_distance_identity(space: &BaseSpace, a: PcChord, b: PcChord)
    requires
        base_space_wf(space.chords_view(), space.adj_view()),
        space.chords_view().contains(a),
    ensures
        space_distance(space, a, a) == Some(0u8),
        space_distance(space, a, b) == Some(0u8) ==> a == b,
{
    let adj = space.adj_view();
    let ia = chord_pos(space, a);
    assert(dist_is(adj, ia, ia, 0));
    lemma_shortest_is(adj, ia, ia, 0);
    if space_distance(space, a, b) == Some(0u8) {
        let ib = chord_pos(space, b);
        let d = shortest(adj, ia, ib)->0;
        lemma_shortest_is(adj, ia, ib, choose|x: nat| dist_is(adj, ia, ib, x));
        assert(sat_u8(d) == 0);
        assert(within(adj, ia, ib, 0));
        assert(space.chords_view()[ia] == a);
        assert(space.chords_view()[ib] == b);
    }
}

/// **Metric law: symmetry.** The distance from `a` to `b` is the distance
/// from `b` to `a`.
pub proof fn lemma_distance_symmetric(space: &BaseSpace, a: PcChord, b: PcChord)
    requires
        base_space_wf(space.chords_view(), space.adj_view()),
    ensures
        space_distance(space, a, b) == space_distance(space, b, a),
{
    lemma_space_symmetric(space.chords_view(), space.adj_view());
    lemma_shortest_symmetric(space.adj_view(), chord_pos(space, a), chord_pos(space, b));
}

/// **Metric law: triangle inequality.** Going through `b` is never shorter
/// than going from `a` to `c` directly (distances clamped at 255).
pub proof fn lemma_distance_triangle(space: &BaseSpace, a: PcChord, b: PcChord, c: PcChord, x: u8, y: u8)
    requires
        base_space_wf(space.chords_view(), space.adj_view()),
        space_distance(space, a, b) == Some(x),
        space_distance(space, b, c) == Some(y),
    ensures
        space_distance(space, a, c) matches Some(z) && z <= x + y,
{
    let adj = space.adj_view();
    let ia = chord_pos(space, a);
    let ib = chord_pos(space, b);
    let ic = chord_pos(space, c);
    let dx = choose|d: nat| dist_is(adj, ia, ib, d);
    let dy = choose|d: nat| dist_is(adj, ib, ic, d);
    lemma_shortest_is(adj, ia, ib, dx);
    lemma_shortest_is(adj, ib, ic, dy);
    lemma_within_concat(adj, ia, ib, ic, dx, dy);
    lemma_least(adj, ia, ic, dx + dy);
    let dz = choose|d: nat| d <= dx + dy && dist_is(adj, ia, ic, d);
    lemma_shortest_is(adj, ia, ic, dz);
    assert(sat_u8(dz) <= sat_u8(dx) + sat_u8(dy));
}

} // verus!

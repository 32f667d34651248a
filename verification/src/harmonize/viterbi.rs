//! The k-best dynamic programming pass over the layered candidate graph:
//! each layer holds the candidate chords of one melody position, and the
//! cost of an edge is the assignment-optimal L1 distance between two chords.

use vstd::prelude::*;

use super::types::Harmonization;
use crate::quintal::types::VoicedChord;
use crate::voice_leading::min_l1::{lemma_least_cost, min_l1_spec, min_voiced_chord_l1};

verus! {

/// The layers as sequences of candidates.
pub open spec fn layers_view(layers: Seq<Vec<VoicedChord>>) -> Seq<Seq<VoicedChord>> {
    Seq::new(layers.len(), |i: int| layers[i]@)
}

/// The cost of moving from candidate `a` of layer `l` to candidate `b` of layer `l + 1`.
pub open spec fn step_cost(ls: Seq<Seq<VoicedChord>>, l: int, a: int, b: int) -> int {
    min_l1_spec(ls[l][a].pitches, ls[l + 1][b].pitches)
}

/// The total cost of a path given by one candidate index per layer, from layer 0.
pub open spec fn path_cost(ls: Seq<Seq<VoicedChord>>, s: Seq<usize>) -> int
    decreases s.len(),
{
    if s.len() <= 1 {
        0
    } else {
        path_cost(ls, s.drop_last()) + step_cost(
            ls,
            s.len() - 2,
            s[s.len() - 2] as int,
            s[s.len() - 1] as int,
        )
    }
}

/// `s` picks one candidate in each of the first `s.len()` layers.
pub open spec fn is_path(ls: Seq<Seq<VoicedChord>>, s: Seq<usize>) -> bool {
    s.len() <= ls.len() && forall|j: int| 0 <= j < s.len() ==> #[trigger] s[j] < ls[j].len()
}

/// The sum of a sequence of movements.
pub open spec fn seq_sum(xs: Seq<u32>) -> int
    decreases xs.len(),
{
    if xs.len() == 0 {
        0
    } else {
        seq_sum(xs.drop_last()) + xs.last()
    }
}

/// The number of paths through all the layers: the product of their sizes.
pub open spec fn path_count(ls: Seq<Seq<VoicedChord>>, n: int) -> nat
    decreases n,
{
    if n <= 0 {
        1
    } else {
        path_count(ls, n - 1) * ls[n - 1].len()
    }
}

/// `h` is a progression through the layers: one candidate of each layer,
/// the movement between consecutive chords, and their sum.
pub open spec fn is_progression(ls: Seq<Seq<VoicedChord>>, h: Harmonization) -> bool {
    &&& h.chords@.len() == ls.len()
    &&& forall|j: int| 0 <= j < ls.len() ==> ls[j].contains(#[trigger] h.chords@[j])
    &&& h.per_step_movements@.len() + 1 == ls.len()
    &&& forall|j: int|
        0 <= j < h.per_step_movements@.len() ==> #[trigger] h.per_step_movements@[j] == min_l1_spec(
            h.chords@[j].pitches,
            h.chords@[j + 1].pitches,
        )
    &&& h.total_movement == seq_sum(h.per_step_movements@)
}

/// One partial path ending at a candidate: its cost and where it came from
/// (the candidate index in the previous layer, and the rank of the path there).
#[derive(Clone, Copy)]
struct PathState {
    cost: u32,
    prev_candidate: Option<usize>,
    prev_path: Option<usize>,
}

/// The partial paths of a list are ordered by non-decreasing cost.
spec fn sorted_costs(b: Seq<PathState>) -> bool {
    forall|i: int, j: int| 0 <= i < j < b.len() ==> b[i].cost <= b[j].cost
}

/// `st` extends the `pp`-th path of candidate `cp` of the previous layer `prev`
/// to candidate `c` of layer `l`, with the matching cost.
spec fn links_back(ls: Seq<Seq<VoicedChord>>, prev: Seq<Seq<PathState>>, l: int, c: int, st: PathState) -> bool {
    &&& st.prev_candidate is Some
    &&& st.prev_path is Some
    &&& st.prev_candidate->0 < prev.len()
    &&& st.prev_path->0 < prev[st.prev_candidate->0 as int].len()
    &&& st.cost == prev[st.prev_candidate->0 as int][st.prev_path->0 as int].cost + step_cost(
        ls,
        l - 1,
        st.prev_candidate->0 as int,
        c,
    )
}

/// The views of the nested vectors of the search.
spec fn dp_view(dp: Seq<Vec<Vec<PathState>>>) -> Seq<Seq<Seq<PathState>>> {
    Seq::new(dp.len(), |l: int| Seq::new(dp[l]@.len(), |c: int| dp[l]@[c]@))
}

/// Layer `l` of the search is well formed: one sorted list of at most `k`
/// paths per candidate, each linking back into layer `l - 1`.
spec fn layer_ok(ls: Seq<Seq<VoicedChord>>, dp: Seq<Seq<Seq<PathState>>>, l: int, k: nat) -> bool {
    &&& dp[l].len() == ls[l].len()
    &&& forall|c: int| 0 <= c < dp[l].len() ==> sorted_costs(#[trigger] dp[l][c])
    &&& forall|c: int| 0 <= c < dp[l].len() ==> no_dup(#[trigger] dp[l][c])
    &&& forall|c: int| 0 <= c < dp[l].len() ==> (#[trigger] dp[l][c]).len() == if l == 0 {
        1
    } else {
        min_nat(k, path_count(ls, l))
    }
    &&& forall|c: int, p: int|
        0 <= c < dp[l].len() && 0 <= p < dp[l][c].len() ==> (#[trigger] dp[l][c][p]).cost <= 1020 * l
    &&& l == 0 ==> forall|c: int, p: int|
        0 <= c < dp[l].len() && 0 <= p < dp[l][c].len() ==> (#[trigger] dp[l][c][p]).cost == 0
    &&& l > 0 ==> forall|c: int, p: int|
        0 <= c < dp[l].len() && 0 <= p < dp[l][c].len() ==> links_back(
            ls,
            dp[l - 1],
            l,
            c,
            #[trigger] dp[l][c][p],
        )
}

/// The smaller of two naturals.
pub open spec fn min_nat(a: nat, b: nat) -> nat {
    if a <= b {
        a
    } else {
        b
    }
}

/// Every layer up to `n` is well formed.
spec fn dp_ok(ls: Seq<Seq<VoicedChord>>, dp: Seq<Seq<Seq<PathState>>>, n: int, k: nat) -> bool {
    &&& dp.len() == n
    &&& n <= ls.len()
    &&& forall|l: int| 0 <= l < n ==> layer_ok(ls, dp, l, k)
}

/// The path of candidate indices that the `p`-th path of candidate `c` of layer `l` follows.
spec fn trace(dp: Seq<Seq<Seq<PathState>>>, l: int, c: int, p: int) -> Seq<usize>
    decreases l,
{
    if l <= 0 {
        seq![c as usize]
    } else {
        let st = dp[l][c][p];
        trace(dp, l - 1, st.prev_candidate->0 as int, st.prev_path->0 as int).push(c as usize)
    }
}

/// Following the links of a well-formed search gives a path through the
/// layers whose cost is the recorded cost.
proof fn lemma_trace(ls: Seq<Seq<VoicedChord>>, dp: Seq<Seq<Seq<PathState>>>, n: int, k: nat, l: int, c: int, p: int)
    requires
        dp_ok(ls, dp, n, k),
        0 <= l < n,
        0 <= c < dp[l].len(),
        c <= usize::MAX,
        0 <= p < dp[l][c].len(),
    ensures
        trace(dp, l, c, p).len() == l + 1,
        trace(dp, l, c, p)[l] == c,
        is_path(ls, trace(dp, l, c, p)),
        path_cost(ls, trace(dp, l, c, p)) == dp[l][c][p].cost,
    decreases l,
{
    assert(layer_ok(ls, dp, l, k));
    if l > 0 {
        let st = dp[l][c][p];
        assert(links_back(ls, dp[l - 1], l, c, st));
        let cp = st.prev_candidate->0 as int;
        let pp = st.prev_path->0 as int;
        assert(layer_ok(ls, dp, l - 1, k));
        lemma_trace(ls, dp, n, k, l - 1, cp, pp);
        let t = trace(dp, l, c, p);
        assert(t.drop_last() =~= trace(dp, l - 1, cp, pp));
    }
}

/// A path `s` through layers `0..=l` that ends at a candidate of layer `l`
/// is one of the paths kept for that candidate, or the candidate keeps `k`
/// paths none dearer than `s`.
spec fn complete_for(ls: Seq<Seq<VoicedChord>>, dv: Seq<Seq<Seq<PathState>>>, l: int, k: nat, s: Seq<usize>) -> bool {
    (is_path(ls, s) && s.len() == l + 1 && s[l] < dv[l].len()) ==> (exists|p: int|
        0 <= p < dv[l][s[l] as int].len() && trace(dv, l, s[l] as int, p) == s) || full_below(
        dv[l][s[l] as int],
        path_cost(ls, s),
        k,
    )
}

/// Layer `l` keeps, for each candidate, the `k` cheapest paths ending there
/// (all of them when there are fewer).
spec fn complete_at(ls: Seq<Seq<VoicedChord>>, dv: Seq<Seq<Seq<PathState>>>, l: int, k: nat) -> bool {
    forall|s: Seq<usize>| #[trigger] complete_for(ls, dv, l, k, s)
}

/// Following links only reads the layers up to the one it starts from.
proof fn lemma_trace_prefix(d1: Seq<Seq<Seq<PathState>>>, d2: Seq<Seq<Seq<PathState>>>, l: int, c: int, p: int)
    requires
        forall|m: int| 0 <= m <= l ==> #[trigger] d1[m] == d2[m],
    ensures
        trace(d1, l, c, p) == trace(d2, l, c, p),
    decreases l,
{
    if l > 0 {
        assert(d1[l] == d2[l]);
        let st = d1[l][c][p];
        lemma_trace_prefix(d1, d2, l - 1, st.prev_candidate->0 as int, st.prev_path->0 as int);
    }
}

/// Completeness of a layer only reads the layers up to it.
proof fn lemma_complete_prefix(ls: Seq<Seq<VoicedChord>>, d1: Seq<Seq<Seq<PathState>>>, d2: Seq<Seq<Seq<PathState>>>, l: int, k: nat)
    requires
        0 <= l,
        complete_at(ls, d1, l, k),
        forall|m: int| 0 <= m <= l ==> #[trigger] d1[m] == d2[m],
    ensures
        complete_at(ls, d2, l, k),
{
    assert forall|s: Seq<usize>| #[trigger] complete_for(ls, d2, l, k, s) by {
        assert(complete_for(ls, d1, l, k, s));
        assert(d1[l] == d2[l]);
        if is_path(ls, s) && s.len() == l + 1 && s[l] < d2[l].len() {
            if exists|p: int| 0 <= p < d1[l][s[l] as int].len() && trace(d1, l, s[l] as int, p) == s {
                let p = choose|p: int| 0 <= p < d1[l][s[l] as int].len() && trace(d1, l, s[l] as int, p) == s;
                lemma_trace_prefix(d1, d2, l, s[l] as int, p);
            }
        }
    }
}

/// The first layer keeps the one path of each candidate.
proof fn lemma_complete_first(ls: Seq<Seq<VoicedChord>>, dv: Seq<Seq<Seq<PathState>>>, k: nat)
    requires
        dv.len() >= 1,
        forall|c: int| 0 <= c < dv[0].len() ==> (#[trigger] dv[0][c]).len() == 1,
    ensures
        complete_at(ls, dv, 0, k),
{
    assert forall|s: Seq<usize>| #[trigger] complete_for(ls, dv, 0, k, s) by {
        if is_path(ls, s) && s.len() == 1 && s[0] < dv[0].len() {
            assert(dv[0][s[0] as int].len() == 1);
            assert(trace(dv, 0, s[0] as int, 0) =~= s);
        }
    }
}

/// A layer is complete when each candidate covers every extension of the
/// paths kept in the previous layer and, where a previous candidate keeps
/// `k` paths, is full of paths no dearer than the extension of its dearest.
proof fn lemma_layer_complete(ls: Seq<Seq<VoicedChord>>, dv: Seq<Seq<Seq<PathState>>>, l: int, k: nat)
    requires
        1 <= l,
        l <= 4_000_000,
        k <= usize::MAX,
        dp_ok(ls, dv, l + 1, k),
        complete_at(ls, dv, l - 1, k),
        forall|c: int, cp: int, pp: int|
            0 <= c < dv[l].len() && 0 <= cp < dv[l - 1].len() && 0 <= pp < dv[l - 1][cp].len() ==> covers(
                dv[l][c],
                #[trigger] offered(dv[l - 1][cp], cp, step_cost(ls, l - 1, cp, c), pp),
                k,
            ),
        forall|c: int, cp: int|
            0 <= c < dv[l].len() && 0 <= cp < dv[l - 1].len() && dv[l - 1][cp].len() == k ==> #[trigger] full_below(
                dv[l][c],
                dv[l - 1][cp][k - 1].cost + step_cost(ls, l - 1, cp, c),
                k,
            ),
    ensures
        complete_at(ls, dv, l, k),
{
    assert forall|s: Seq<usize>| #[trigger] complete_for(ls, dv, l, k, s) by {
        if is_path(ls, s) && s.len() == l + 1 && s[l] < dv[l].len() {
            let c = s[l] as int;
            let cp = s[l - 1] as int;
            let s1 = s.drop_last();
            assert(layer_ok(ls, dv, l, k));
            assert(layer_ok(ls, dv, l - 1, k));
            assert(s[l - 1] < ls[l - 1].len());
            assert(is_path(ls, s1));
            assert(complete_for(ls, dv, l - 1, k, s1));
            assert(s1[l - 1] == cp);
            let e = step_cost(ls, l - 1, cp, c);
            assert(path_cost(ls, s) == path_cost(ls, s1) + e);
            lemma_min_l1_bound(ls, l - 1, cp, c);
            if exists|p: int| 0 <= p < dv[l - 1][cp].len() && #[trigger] trace(dv, l - 1, cp, p) == s1 {
                let pp = choose|p: int| 0 <= p < dv[l - 1][cp].len() && #[trigger] trace(dv, l - 1, cp, p) == s1;
                lemma_trace(ls, dv, l + 1, k, l - 1, cp, pp);
                let o = offered(dv[l - 1][cp], cp, e, pp);
                assert(dv[l - 1][cp][pp].cost <= 1020 * (l - 1));
                assert(o.cost == path_cost(ls, s));
                assert(covers(dv[l][c], o, k));
                if dv[l][c].contains(o) {
                    let p = choose|p: int| 0 <= p < dv[l][c].len() && dv[l][c][p] == o;
                    assert(trace(dv, l, c, p) == trace(dv, l - 1, cp, pp).push(c as usize));
                    assert(trace(dv, l, c, p) =~= s);
                }
            } else {
                assert(full_below(dv[l - 1][cp], path_cost(ls, s1), k));
                assert(full_below(dv[l][c], dv[l - 1][cp][k - 1].cost + e, k));
            }
        }
    }
}

/// Among paths through the first `s.len()` layers, `s` comes before `t` in
/// the order the search keeps the paths ending at one candidate: cheaper
/// first, then by the candidate of the layer before, then by that prefix.
pub open spec fn rank_before(ls: Seq<Seq<VoicedChord>>, s: Seq<usize>, t: Seq<usize>) -> bool
    decreases s.len(),
{
    if s.len() <= 1 || t.len() != s.len() {
        false
    } else {
        let l = s.len() - 1;
        ||| path_cost(ls, s) < path_cost(ls, t)
        ||| path_cost(ls, s) == path_cost(ls, t) && s[l - 1] < t[l - 1]
        ||| path_cost(ls, s) == path_cost(ls, t) && s[l - 1] == t[l - 1] && rank_before(
            ls,
            s.drop_last(),
            t.drop_last(),
        )
    }
}

/// The order of kept paths is transitive.
proof fn lemma_rank_trans(ls: Seq<Seq<VoicedChord>>, s: Seq<usize>, t: Seq<usize>, u: Seq<usize>)
    requires
        rank_before(ls, s, t),
        rank_before(ls, t, u),
    ensures
        rank_before(ls, s, u),
    decreases s.len(),
{
    let l = s.len() - 1;
    if path_cost(ls, s) == path_cost(ls, t) && path_cost(ls, t) == path_cost(ls, u) && s[l - 1] == t[l - 1]
        && t[l - 1] == u[l - 1] {
        lemma_rank_trans(ls, s.drop_last(), t.drop_last(), u.drop_last());
    }
}

/// No path comes before itself.
proof fn lemma_rank_irrefl(ls: Seq<Seq<VoicedChord>>, s: Seq<usize>)
    ensures
        !rank_before(ls, s, s),
    decreases s.len(),
{
    if s.len() > 1 {
        lemma_rank_irrefl(ls, s.drop_last());
    }
}

/// The path a kept state `x` of candidate `c` of layer `l` follows: the path
/// of the state it links back to, extended by `c`.
spec fn link_trace(dv: Seq<Seq<Seq<PathState>>>, l: int, c: int, x: PathState) -> Seq<usize> {
    trace(dv, l - 1, x.prev_candidate->0 as int, x.prev_path->0 as int).push(c as usize)
}

/// The path of a linked state is a path through the layers up to `l`,
/// ending at `c`, and costs what the state records.
proof fn lemma_link_trace(ls: Seq<Seq<VoicedChord>>, dv: Seq<Seq<Seq<PathState>>>, n: int, k: nat, l: int, c: int, x: PathState)
    requires
        dp_ok(ls, dv, n, k),
        1 <= l < n,
        0 <= c < dv[l].len(),
        c <= usize::MAX,
        links_back(ls, dv[l - 1], l, c, x),
    ensures
        link_trace(dv, l, c, x).len() == l + 1,
        link_trace(dv, l, c, x)[l] == c,
        link_trace(dv, l, c, x)[l - 1] == x.prev_candidate->0,
        link_trace(dv, l, c, x).drop_last() == trace(dv, l - 1, x.prev_candidate->0 as int, x.prev_path->0 as int),
        is_path(ls, link_trace(dv, l, c, x)),
        path_cost(ls, link_trace(dv, l, c, x)) == x.cost,
{
    assert(layer_ok(ls, dv, l - 1, k));
    assert(layer_ok(ls, dv, l, k));
    let cp = x.prev_candidate->0 as int;
    let pp = x.prev_path->0 as int;
    lemma_trace(ls, dv, n, k, l - 1, cp, pp);
    let t = link_trace(dv, l, c, x);
    assert(t.drop_last() =~= trace(dv, l - 1, cp, pp));
}

/// The kept paths of each candidate of layer `l` come in the search order,
/// and every path ending there is kept or comes after the last kept one
/// (which then fills all `k` places).
spec fn ordered_for(ls: Seq<Seq<VoicedChord>>, dv: Seq<Seq<Seq<PathState>>>, l: int, k: nat, s: Seq<usize>) -> bool {
    (is_path(ls, s) && s.len() == l + 1 && s[l] < dv[l].len()) ==> (exists|p: int|
        0 <= p < dv[l][s[l] as int].len() && trace(dv, l, s[l] as int, p) == s) || (k >= 1 && dv[l][s[l] as int].len()
        == k && rank_before(ls, trace(dv, l, s[l] as int, k - 1), s))
}

/// Layer `l` keeps, for each candidate, the first `k` paths ending there in
/// the search order, in that order.
spec fn ordered_at(ls: Seq<Seq<VoicedChord>>, dv: Seq<Seq<Seq<PathState>>>, l: int, k: nat) -> bool {
    &&& forall|c: int, p: int, q: int|
        0 <= c < dv[l].len() && 0 <= p < q < dv[l][c].len() ==> rank_before(
            ls,
            #[trigger] trace(dv, l, c, p),
            #[trigger] trace(dv, l, c, q),
        )
    &&& forall|s: Seq<usize>| #[trigger] ordered_for(ls, dv, l, k, s)
}

/// States kept in the search order follow paths in the search order.
proof fn lemma_state_rank(ls: Seq<Seq<VoicedChord>>, dv: Seq<Seq<Seq<PathState>>>, n: int, k: nat, l: int, c: int, x: PathState, y: PathState)
    requires
        dp_ok(ls, dv, n, k),
        1 <= l < n,
        0 <= c < dv[l].len(),
        c <= usize::MAX,
        ordered_at(ls, dv, l - 1, k),
        links_back(ls, dv[l - 1], l, c, x),
        links_back(ls, dv[l - 1], l, c, y),
        st_lt(x, y),
    ensures
        rank_before(ls, link_trace(dv, l, c, x), link_trace(dv, l, c, y)),
{
    lemma_link_trace(ls, dv, n, k, l, c, x);
    lemma_link_trace(ls, dv, n, k, l, c, y);
    let cp = x.prev_candidate->0 as int;
    if x.cost == y.cost && x.prev_candidate->0 == y.prev_candidate->0 {
        assert(trace(dv, l - 1, cp, x.prev_path->0 as int) == link_trace(dv, l, c, x).drop_last());
        assert(rank_before(ls, trace(dv, l - 1, cp, x.prev_path->0 as int), trace(dv, l - 1, cp, y.prev_path->0 as int)));
    }
}

/// The first layer keeps the one path of each candidate.
proof fn lemma_ordered_first(ls: Seq<Seq<VoicedChord>>, dv: Seq<Seq<Seq<PathState>>>, k: nat)
    requires
        dv.len() >= 1,
        forall|c: int| 0 <= c < dv[0].len() ==> (#[trigger] dv[0][c]).len() == 1,
    ensures
        ordered_at(ls, dv, 0, k),
{
    assert forall|s: Seq<usize>| #[trigger] ordered_for(ls, dv, 0, k, s) by {
        if is_path(ls, s) && s.len() == 1 && s[0] < dv[0].len() {
            assert(dv[0][s[0] as int].len() == 1);
            assert(trace(dv, 0, s[0] as int, 0) =~= s);
        }
    }
}

/// The search order of a layer only reads the layers up to it.
proof fn lemma_ordered_prefix(ls: Seq<Seq<VoicedChord>>, d1: Seq<Seq<Seq<PathState>>>, d2: Seq<Seq<Seq<PathState>>>, l: int, k: nat)
    requires
        0 <= l,
        ordered_at(ls, d1, l, k),
        forall|m: int| 0 <= m <= l ==> #[trigger] d1[m] == d2[m],
    ensures
        ordered_at(ls, d2, l, k),
{
    assert(d1[l] == d2[l]);
    assert forall|c: int, p: int, q: int|
        0 <= c < d2[l].len() && 0 <= p < q < d2[l][c].len() implies rank_before(
            ls,
            #[trigger] trace(d2, l, c, p),
            #[trigger] trace(d2, l, c, q),
        ) by {
        lemma_trace_prefix(d1, d2, l, c, p);
        lemma_trace_prefix(d1, d2, l, c, q);
    }
    assert forall|s: Seq<usize>| #[trigger] ordered_for(ls, d2, l, k, s) by {
        assert(ordered_for(ls, d1, l, k, s));
        if is_path(ls, s) && s.len() == l + 1 && s[l] < d2[l].len() {
            let c = s[l] as int;
            if exists|p: int| 0 <= p < d1[l][c].len() && trace(d1, l, c, p) == s {
                let p = choose|p: int| 0 <= p < d1[l][c].len() && trace(d1, l, c, p) == s;
                lemma_trace_prefix(d1, d2, l, c, p);
            } else {
                lemma_trace_prefix(d1, d2, l, c, k - 1);
            }
        }
    }
}

/// A layer keeps its paths in the search order when each candidate keeps
/// its states in the search order, covers every extension of the previous
/// layer's paths in that order, and, where a previous candidate keeps `k`
/// paths, is full no later than the extension of the last of them.
proof fn lemma_layer_ordered(ls: Seq<Seq<VoicedChord>>, dv: Seq<Seq<Seq<PathState>>>, l: int, k: nat)
    requires
        1 <= l,
        l <= 4_000_000,
        k <= usize::MAX,
        k >= 1,
        dp_ok(ls, dv, l + 1, k),
        forall|j: int| 0 <= j < ls.len() ==> #[trigger] ls[j].len() <= usize::MAX,
        ordered_at(ls, dv, l - 1, k),
        forall|c: int| 0 <= c < dv[l].len() ==> st_sorted(#[trigger] dv[l][c]),
        forall|c: int, cp: int, pp: int|
            0 <= c < dv[l].len() && 0 <= cp < dv[l - 1].len() && 0 <= pp < dv[l - 1][cp].len() ==> lcovers(
                dv[l][c],
                #[trigger] offered(dv[l - 1][cp], cp, step_cost(ls, l - 1, cp, c), pp),
                k,
            ),
        forall|c: int, cp: int|
            0 <= c < dv[l].len() && 0 <= cp < dv[l - 1].len() && dv[l - 1][cp].len() == k ==> #[trigger] lfull(
                dv[l][c],
                offered(dv[l - 1][cp], cp, step_cost(ls, l - 1, cp, c), k - 1),
                k,
            ),
    ensures
        ordered_at(ls, dv, l, k),
{
    assert(layer_ok(ls, dv, l, k));
    assert(layer_ok(ls, dv, l - 1, k));
    assert forall|c: int, p: int, q: int|
        0 <= c < dv[l].len() && 0 <= p < q < dv[l][c].len() implies rank_before(
            ls,
            #[trigger] trace(dv, l, c, p),
            #[trigger] trace(dv, l, c, q),
        ) by {
        assert(ls[l].len() <= usize::MAX);
        lemma_state_rank(ls, dv, l + 1, k, l, c, dv[l][c][p], dv[l][c][q]);
    }
    assert forall|s: Seq<usize>| #[trigger] ordered_for(ls, dv, l, k, s) by {
        if is_path(ls, s) && s.len() == l + 1 && s[l] < dv[l].len() {
            let c = s[l] as int;
            let cp = s[l - 1] as int;
            let s1 = s.drop_last();
            assert(s[l - 1] < ls[l - 1].len());
            assert(is_path(ls, s1));
            assert(ordered_for(ls, dv, l - 1, k, s1));
            assert(s1[l - 1] == cp);
            let e = step_cost(ls, l - 1, cp, c);
            assert(path_cost(ls, s) == path_cost(ls, s1) + e);
            lemma_min_l1_bound(ls, l - 1, cp, c);
            let buf = dv[l][c];
            if exists|p: int| 0 <= p < dv[l - 1][cp].len() && #[trigger] trace(dv, l - 1, cp, p) == s1 {
                let pp = choose|p: int| 0 <= p < dv[l - 1][cp].len() && #[trigger] trace(dv, l - 1, cp, p) == s1;
                lemma_trace(ls, dv, l + 1, k, l - 1, cp, pp);
                let o = offered(dv[l - 1][cp], cp, e, pp);
                assert(dv[l - 1][cp][pp].cost <= 1020 * (l - 1));
                assert(links_back(ls, dv[l - 1], l, c, o));
                assert(link_trace(dv, l, c, o) =~= s);
                assert(lcovers(buf, o, k));
                if buf.contains(o) {
                    let p = choose|p: int| 0 <= p < buf.len() && buf[p] == o;
                    assert(trace(dv, l, c, p) == link_trace(dv, l, c, o));
                } else {
                    let x = buf[k - 1];
                    assert(links_back(ls, dv[l - 1], l, c, x));
                    lemma_state_rank(ls, dv, l + 1, k, l, c, x, o);
                    assert(trace(dv, l, c, k - 1) == link_trace(dv, l, c, x));
                }
            } else {
                let t1 = trace(dv, l - 1, cp, k - 1);
                assert(dv[l - 1][cp].len() == k && rank_before(ls, t1, s1));
                lemma_trace(ls, dv, l + 1, k, l - 1, cp, k - 1);
                let o = offered(dv[l - 1][cp], cp, e, k - 1);
                assert(dv[l - 1][cp][k - 1].cost <= 1020 * (l - 1));
                assert(links_back(ls, dv[l - 1], l, c, o));
                let t = link_trace(dv, l, c, o);
                lemma_link_trace(ls, dv, l + 1, k, l, c, o);
                assert(t.drop_last() == t1);
                assert(s.drop_last() == s1);
                assert(rank_before(ls, t, s));
                assert(lfull(buf, o, k));
                let x = buf[k - 1];
                assert(trace(dv, l, c, k - 1) == link_trace(dv, l, c, x));
                if x != o {
                    assert(links_back(ls, dv[l - 1], l, c, x));
                    lemma_state_rank(ls, dv, l + 1, k, l, c, x, o);
                    lemma_rank_trans(ls, link_trace(dv, l, c, x), t, s);
                }
            }
        }
    }
}

/// The cost of one step is at most 1020.
proof fn lemma_min_l1_bound(ls: Seq<Seq<VoicedChord>>, l: int, a: int, b: int)
    ensures
        0 <= step_cost(ls, l, a, b) <= 1020,
{
    lemma_least_cost(ls[l][a].pitches, ls[l + 1][b].pitches, 24);
}

/// Different kept paths follow different candidate sequences.
proof fn lemma_trace_injective(ls: Seq<Seq<VoicedChord>>, dv: Seq<Seq<Seq<PathState>>>, n: int, k: nat, l: int, c1: int, p1: int, c2: int, p2: int)
    requires
        dp_ok(ls, dv, n, k),
        0 <= l < n,
        0 <= c1 < dv[l].len(),
        0 <= c2 < dv[l].len(),
        c1 <= usize::MAX,
        c2 <= usize::MAX,
        0 <= p1 < dv[l][c1].len(),
        0 <= p2 < dv[l][c2].len(),
        c1 != c2 || p1 != p2,
    ensures
        trace(dv, l, c1, p1) != trace(dv, l, c2, p2),
    decreases l,
{
    assert(layer_ok(ls, dv, l, k));
    lemma_trace(ls, dv, n, k, l, c1, p1);
    lemma_trace(ls, dv, n, k, l, c2, p2);
    if c1 == c2 && l > 0 {
        let st1 = dv[l][c1][p1];
        let st2 = dv[l][c2][p2];
        assert(no_dup(dv[l][c1]));
        assert(st1 != st2);
        assert(links_back(ls, dv[l - 1], l, c1, st1));
        assert(links_back(ls, dv[l - 1], l, c2, st2));
        let cp1 = st1.prev_candidate->0 as int;
        let cp2 = st2.prev_candidate->0 as int;
        let pp1 = st1.prev_path->0 as int;
        let pp2 = st2.prev_path->0 as int;
        assert(cp1 != cp2 || pp1 != pp2);
        lemma_trace_injective(ls, dv, n, k, l - 1, cp1, pp1, cp2, pp2);
        let t1 = trace(dv, l, c1, p1);
        let t2 = trace(dv, l, c2, p2);
        assert(t1.drop_last() == trace(dv, l - 1, cp1, pp1));
        assert(t2.drop_last() == trace(dv, l - 1, cp2, pp2));
    }
}

/// `b` holds `k` paths, the dearest of which costs at most `x`.
spec fn full_below(b: Seq<PathState>, x: int, k: nat) -> bool {
    &&& k >= 1
    &&& b.len() == k
    &&& b[k - 1].cost <= x
}

/// `o` is kept in `b`, or `b` is already full of paths no dearer than `o`.
spec fn covers(b: Seq<PathState>, o: PathState, k: nat) -> bool {
    b.contains(o) || full_below(b, o.cost as int, k)
}

/// No path appears twice in `b`.
spec fn no_dup(b: Seq<PathState>) -> bool {
    forall|i: int, j: int| 0 <= i < j < b.len() ==> b[i] != b[j]
}

/// The path offered by extending the `p`-th path of candidate `cp` by an
/// edge of cost `delta`.
spec fn offered(states: Seq<PathState>, cp: int, delta: int, p: int) -> PathState {
    PathState {
        cost: (states[p].cost + delta) as u32,
        prev_candidate: Some(cp as usize),
        prev_path: Some(p as usize),
    }
}

/// Insert a path into a sorted list of at most `k` paths, after those of
/// equal cost, keeping only the first `k`. Returns the insertion position
/// (`k` or more when the path is not kept).
fn insert_bounded(buf: &mut Vec<PathState>, item: PathState, k: usize) -> (pos: usize)
    requires
        k >= 1,
        old(buf)@.len() <= k,
        sorted_costs(old(buf)@),
    ensures
        sorted_costs(final(buf)@),
        final(buf)@.len() == min_nat(k as nat, (old(buf)@.len() + 1) as nat),
        forall|x: PathState| #[trigger] final(buf)@.contains(x) ==> x == item || old(buf)@.contains(x),
        pos <= old(buf)@.len(),
        forall|i: int| 0 <= i < pos ==> old(buf)@[i].cost <= item.cost,
        pos < old(buf)@.len() ==> old(buf)@[pos as int].cost > item.cost,
        pos < k ==> final(buf)@ == old(buf)@.insert(pos as int, item).take(
            min_nat(k as nat, (old(buf)@.len() + 1) as nat) as int,
        ),
        pos >= k ==> final(buf)@ == old(buf)@,
{
    let ghost b0 = buf@;
    let mut pos: usize = 0;
    while pos < buf.len() && buf[pos].cost <= item.cost
        invariant
            0 <= pos <= buf@.len(),
            buf@ == b0,
            forall|i: int| 0 <= i < pos ==> buf@[i].cost <= item.cost,
        decreases buf@.len() - pos,
    {
        pos = pos + 1;
    }
    if pos < k {
        buf.insert(pos, item);
        proof {
            let b1 = buf@;
            assert forall|i: int, j: int| 0 <= i < j < b1.len() implies b1[i].cost <= b1[j].cost by {
                if j < pos {
                } else if j == pos {
                    assert(b1[i] == b0[i]);
                } else if i < pos {
                    assert(b1[j] == b0[j - 1]);
                    assert(b0[pos as int].cost > item.cost);
                    assert(b0[i].cost <= b0[pos as int].cost);
                } else if i == pos {
                    assert(b1[j] == b0[j - 1]);
                    assert(b0[pos as int].cost > item.cost);
                    assert(b0[pos as int].cost <= b0[j - 1].cost);
                } else {
                    assert(b1[i] == b0[i - 1]);
                    assert(b1[j] == b0[j - 1]);
                }
            }
            assert forall|x: PathState| #[trigger] b1.contains(x) implies x == item || b0.contains(x) by {
                let i = choose|i: int| 0 <= i < b1.len() && b1[i] == x;
                if i < pos {
                    assert(b0[i] == x);
                } else if i > pos {
                    assert(b0[i - 1] == x);
                }
            }
        }
        if buf.len() > k {
            let ghost b1 = buf@;
            buf.pop();
            proof {
                assert(buf@ =~= b1.drop_last());
                assert forall|i: int, j: int| 0 <= i < j < buf@.len() implies buf@[i].cost <= buf@[j].cost by {
                    assert(buf@[i] == b1[i]);
                    assert(buf@[j] == b1[j]);
                }
                assert forall|x: PathState| #[trigger] buf@.contains(x) implies x == item || b0.contains(x) by {
                    let i = choose|i: int| 0 <= i < buf@.len() && buf@[i] == x;
                    assert(b1[i] == x);
                    assert(b1.contains(x));
                }
                assert(buf@ =~= b0.insert(pos as int, item).take(k as int));
            }
        } else {
            proof {
                assert(buf@ =~= b0.insert(pos as int, item).take((b0.len() + 1) as int));
            }
        }
    }
    pos
}

/// What one bounded insertion keeps: a path that was covered stays
/// covered, the inserted path is covered, a full list stays full and no
/// dearer, no path is duplicated, and a sorted prefix of paths no dearer
/// than the inserted one grows by one.
proof fn lemma_insert_facts(b0: Seq<PathState>, b1: Seq<PathState>, item: PathState, pos: int, k: nat)
    requires
        k >= 1,
        b0.len() <= k,
        sorted_costs(b0),
        sorted_costs(b1),
        b1.len() == min_nat(k, (b0.len() + 1) as nat),
        forall|x: PathState| #[trigger] b1.contains(x) ==> x == item || b0.contains(x),
        0 <= pos <= b0.len(),
        forall|i: int| 0 <= i < pos ==> b0[i].cost <= item.cost,
        pos < b0.len() ==> b0[pos].cost > item.cost,
        pos < k ==> b1 == b0.insert(pos, item).take(min_nat(k, (b0.len() + 1) as nat) as int),
        pos >= k ==> b1 == b0,
    ensures
        forall|o: PathState| covers(b0, o, k) ==> #[trigger] covers(b1, o, k),
        covers(b1, item, k),
        forall|x: int| full_below(b0, x, k) ==> #[trigger] full_below(b1, x, k),
        no_dup(b0) && !b0.contains(item) ==> no_dup(b1),
        forall|m: int|
            0 <= m <= k && b0.len() >= m && (m > 0 ==> b0[m - 1].cost <= item.cost) ==> b1.len()
                >= min_nat(k, (m + 1) as nat) && #[trigger] b1[min_nat(k, (m + 1) as nat) - 1].cost
                <= item.cost,
{
    let n = min_nat(k, (b0.len() + 1) as nat) as int;
    if pos < k {
        let bi = b0.insert(pos, item);
        assert(bi.len() == b0.len() + 1);
        assert forall|i: int| 0 <= i < b1.len() implies #[trigger] b1[i] == (if i < pos {
            b0[i]
        } else if i == pos {
            item
        } else {
            b0[i - 1]
        }) by {
            assert(b1[i] == bi[i]);
        }
        assert(b1.contains(item)) by {
            assert(b1[pos] == item);
        }
    }
    assert forall|o: PathState| covers(b0, o, k) implies #[trigger] covers(b1, o, k) by {
        if pos < k {
            if b0.contains(o) {
                let i = choose|i: int| 0 <= i < b0.len() && b0[i] == o;
                if i < pos {
                    assert(b1[i] == o);
                } else if i + 1 < b1.len() {
                    assert(b1[i + 1] == o);
                } else {
                    assert(b1.len() == k);
                    assert(b0.len() == k);
                    assert(i == k - 1);
                    if pos < k - 1 {
                        assert(b1[k - 1] == b0[k - 2]);
                    } else {
                        assert(b1[k - 1] == item);
                        assert(b0[pos].cost > item.cost);
                    }
                }
            } else {
                assert(b0.len() == k);
                assert(b1.len() == k);
                if pos < k - 1 {
                    assert(b1[k - 1] == b0[k - 2]);
                } else {
                    assert(b1[k - 1] == item);
                    assert(b0[pos].cost > item.cost);
                }
            }
        }
    }
    assert forall|x: int| full_below(b0, x, k) implies #[trigger] full_below(b1, x, k) by {
        if pos < k {
            assert(b1.len() == k);
            if pos < k - 1 {
                assert(b1[k - 1] == b0[k - 2]);
            } else {
                assert(b1[k - 1] == item);
                assert(b0[pos].cost > item.cost);
            }
        }
    }
    if pos >= k {
        assert(b0.len() == k);
        assert(b0[k - 1].cost <= item.cost);
        assert(full_below(b1, item.cost as int, k));
    }
    if no_dup(b0) && !b0.contains(item) && pos < k {
        assert forall|i: int, j: int| 0 <= i < j < b1.len() implies b1[i] != b1[j] by {
            if i == pos {
                assert(b0.contains(b1[j]));
            } else if j == pos {
                assert(b0.contains(b1[i]));
            } else {
                let i0 = if i < pos { i } else { i - 1 };
                let j0 = if j < pos { j } else { j - 1 };
                assert(b1[i] == b0[i0]);
                assert(b1[j] == b0[j0]);
            }
        }
    }
    assert forall|m: int|
        0 <= m <= k && b0.len() >= m && (m > 0 ==> b0[m - 1].cost <= item.cost) implies b1.len()
            >= min_nat(k, (m + 1) as nat) && #[trigger] b1[min_nat(k, (m + 1) as nat) - 1].cost
            <= item.cost by {
        if m == k {
            assert(b0.len() == k);
            if pos < k {
                if pos < k - 1 {
                    assert(b1[k - 1] == b0[k - 2]);
                } else {
                    assert(b1[k - 1] == item);
                }
            } else {
                assert(b1[k - 1] == b0[k - 1]);
            }
        } else {
            if pos < k {
                if pos < m {
                    assert(b1[m] == b0[m - 1]);
                } else if pos == m {
                    assert(b1[m] == item);
                } else {
                    assert(b1[m] == b0[m]);
                }
            } else {
                assert(b1[m] == b0[m]);
            }
        }
    }
}

/// Partial path `x` comes before `y` in the order the search keeps them:
/// cheaper first, then by the candidate it came from, then by its rank there.
spec fn st_lt(x: PathState, y: PathState) -> bool {
    ||| x.cost < y.cost
    ||| x.cost == y.cost && x.prev_candidate->0 < y.prev_candidate->0
    ||| x.cost == y.cost && x.prev_candidate->0 == y.prev_candidate->0 && x.prev_path->0 < y.prev_path->0
}

/// The list is strictly ordered by [`st_lt`].
spec fn st_sorted(b: Seq<PathState>) -> bool {
    forall|i: int, j: int| 0 <= i < j < b.len() ==> st_lt(#[trigger] b[i], #[trigger] b[j])
}

/// `o` is kept in `b`, or `b` is full of paths that all come before `o`.
spec fn lcovers(b: Seq<PathState>, o: PathState, k: nat) -> bool {
    b.contains(o) || (k >= 1 && b.len() == k && st_lt(b[k - 1], o))
}

/// `b` is full and its last path is `o` or comes before it.
spec fn lfull(b: Seq<PathState>, o: PathState, k: nat) -> bool {
    k >= 1 && b.len() == k && (b[k - 1] == o || st_lt(b[k - 1], o))
}

/// What one bounded insertion keeps in the search order, when every path
/// already kept that costs as much as the inserted one comes before it.
proof fn lemma_insert_order(b0: Seq<PathState>, b1: Seq<PathState>, item: PathState, pos: int, k: nat)
    requires
        k >= 1,
        b0.len() <= k,
        sorted_costs(b0),
        st_sorted(b0),
        forall|x: PathState| #[trigger] b0.contains(x) ==> st_lt(x, item) || item.cost < x.cost,
        b1.len() == min_nat(k, (b0.len() + 1) as nat),
        0 <= pos <= b0.len(),
        forall|i: int| 0 <= i < pos ==> b0[i].cost <= item.cost,
        pos < b0.len() ==> b0[pos].cost > item.cost,
        pos < k ==> b1 == b0.insert(pos, item).take(min_nat(k, (b0.len() + 1) as nat) as int),
        pos >= k ==> b1 == b0,
    ensures
        st_sorted(b1),
        forall|o: PathState| lcovers(b0, o, k) ==> #[trigger] lcovers(b1, o, k),
        lcovers(b1, item, k),
        forall|o: PathState| lfull(b0, o, k) ==> #[trigger] lfull(b1, o, k),
        forall|m: int|
            0 <= m <= k && b0.len() >= m && (m > 0 ==> (b0[m - 1] == item || st_lt(b0[m - 1], item))) ==> b1.len()
                >= min_nat(k, (m + 1) as nat) && (#[trigger] b1[min_nat(k, (m + 1) as nat) - 1] == item || st_lt(
                b1[min_nat(k, (m + 1) as nat) - 1],
                item,
            )),
{
    assert forall|i: int| 0 <= i < b0.len() implies (i < pos ==> st_lt(#[trigger] b0[i], item)) && (i >= pos ==> st_lt(item, b0[i])) by {
        assert(b0.contains(b0[i]));
        if i >= pos {
            assert(b0[pos].cost <= b0[i].cost);
        }
    }
    if pos < k {
        let bi = b0.insert(pos, item);
        assert forall|i: int| 0 <= i < b1.len() implies #[trigger] b1[i] == (if i < pos {
            b0[i]
        } else if i == pos {
            item
        } else {
            b0[i - 1]
        }) by {
            assert(b1[i] == bi[i]);
        }
        assert(b1.contains(item)) by {
            assert(b1[pos] == item);
        }
        assert forall|i: int, j: int| 0 <= i < j < b1.len() implies st_lt(#[trigger] b1[i], #[trigger] b1[j]) by {
            if j < pos {
            } else if j == pos {
            } else if i < pos {
                assert(st_lt(b0[i], item));
                assert(st_lt(item, b0[j - 1]));
            } else if i == pos {
            } else {
            }
        }
    } else {
        assert(b0.len() == k);
    }
    assert forall|o: PathState| lcovers(b0, o, k) implies #[trigger] lcovers(b1, o, k) by {
        if pos < k {
            if b0.contains(o) {
                let i = choose|i: int| 0 <= i < b0.len() && b0[i] == o;
                if i < pos {
                    assert(b1[i] == o);
                } else if i + 1 < b1.len() {
                    assert(b1[i + 1] == o);
                } else {
                    assert(b1.len() == k);
                    if pos < k - 1 {
                        assert(b1[k - 1] == b0[k - 2]);
                        assert(st_lt(b0[k - 2], b0[k - 1]));
                    } else {
                        assert(b1[k - 1] == item);
                    }
                }
            } else {
                assert(b1.len() == k);
                if pos < k - 1 {
                    assert(b1[k - 1] == b0[k - 2]);
                    assert(st_lt(b0[k - 2], b0[k - 1]));
                } else {
                    assert(b1[k - 1] == item);
                }
            }
        }
    }
    assert forall|o: PathState| lfull(b0, o, k) implies #[trigger] lfull(b1, o, k) by {
        if pos < k {
            assert(b1.len() == k);
            if pos < k - 1 {
                assert(b1[k - 1] == b0[k - 2]);
                assert(st_lt(b0[k - 2], b0[k - 1]));
            } else {
                assert(b1[k - 1] == item);
            }
        }
    }
    if pos >= k {
        assert(b0.contains(b0[k - 1]));
    }
    assert forall|m: int|
        0 <= m <= k && b0.len() >= m && (m > 0 ==> (b0[m - 1] == item || st_lt(b0[m - 1], item))) implies b1.len()
            >= min_nat(k, (m + 1) as nat) && (#[trigger] b1[min_nat(k, (m + 1) as nat) - 1] == item || st_lt(
            b1[min_nat(k, (m + 1) as nat) - 1],
            item,
        )) by {
        if m == k {
            if pos < k {
                if pos < k - 1 {
                    assert(b1[k - 1] == b0[k - 2]);
                    assert(st_lt(b0[k - 2], b0[k - 1]));
                } else {
                    assert(b1[k - 1] == item);
                }
            } else {
                assert(b1[k - 1] == b0[k - 1]);
            }
        } else {
            if pos < k {
                if pos < m {
                    assert(b1[m] == b0[m - 1]);
                } else if pos == m {
                    assert(b1[m] == item);
                } else {
                    assert(b1[m] == b0[m]);
                    assert(st_lt(b0[m], item));
                }
            } else {
                assert(b1[m] == b0[m]);
                assert(st_lt(b0[m], item));
            }
        }
    }
}

/// Offer every path of `states` (a sorted list of at most `k` paths of
/// candidate `cp`), extended by an edge of cost `delta`, to the bounded
/// sorted list `buf`.
fn offer_states(buf: &mut Vec<PathState>, states: &Vec<PathState>, cp: usize, delta: u32, k: usize, Ghost(bound): Ghost<int>)
    requires
        k >= 1,
        old(buf)@.len() <= k,
        sorted_costs(old(buf)@),
        sorted_costs(states@),
        states@.len() <= k,
        forall|p: int| 0 <= p < states@.len() ==> (#[trigger] states@[p]).cost + delta <= bound,
        bound <= u32::MAX,
        st_sorted(old(buf)@),
        forall|x: PathState| #[trigger] old(buf)@.contains(x) ==> x.prev_candidate->0 < cp,
    ensures
        st_sorted(final(buf)@),
        forall|o: PathState| lcovers(old(buf)@, o, k as nat) ==> #[trigger] lcovers(final(buf)@, o, k as nat),
        forall|p: int| 0 <= p < states@.len() ==> lcovers(final(buf)@, #[trigger] offered(states@, cp as int, delta as int, p), k as nat),
        forall|o: PathState| lfull(old(buf)@, o, k as nat) ==> #[trigger] lfull(final(buf)@, o, k as nat),
        states@.len() == k ==> lfull(final(buf)@, offered(states@, cp as int, delta as int, k - 1), k as nat),
        sorted_costs(final(buf)@),
        final(buf)@.len() == min_nat(k as nat, (old(buf)@.len() + states@.len()) as nat),
        forall|x: PathState| #[trigger] final(buf)@.contains(x) ==> old(buf)@.contains(x) || exists|p: int|
            0 <= p < states@.len() && x == offered(states@, cp as int, delta as int, p),
        forall|o: PathState| covers(old(buf)@, o, k as nat) ==> #[trigger] covers(final(buf)@, o, k as nat),
        forall|p: int| 0 <= p < states@.len() ==> covers(final(buf)@, #[trigger] offered(states@, cp as int, delta as int, p), k as nat),
        forall|x: int| full_below(old(buf)@, x, k as nat) ==> #[trigger] full_below(final(buf)@, x, k as nat),
        states@.len() == k ==> full_below(final(buf)@, states@[k - 1].cost + delta, k as nat),
        no_dup(old(buf)@) && (forall|x: PathState| #[trigger] old(buf)@.contains(x) ==> x.prev_candidate != Some(cp)) ==> no_dup(final(buf)@),
{
    let ghost b0 = buf@;
    let mut pi: usize = 0;
    while pi < states.len()
        invariant
            0 <= pi <= states@.len(),
            k >= 1,
            b0.len() <= k,
            sorted_costs(b0),
            sorted_costs(buf@),
            sorted_costs(states@),
            states@.len() <= k,
            forall|p: int| 0 <= p < states@.len() ==> (#[trigger] states@[p]).cost + delta <= bound,
            bound <= u32::MAX,
            buf@.len() == min_nat(k as nat, (b0.len() + pi) as nat),
            forall|x: PathState| #[trigger] buf@.contains(x) ==> b0.contains(x) || exists|p: int|
                0 <= p < pi && x == offered(states@, cp as int, delta as int, p),
            forall|o: PathState| covers(b0, o, k as nat) ==> #[trigger] covers(buf@, o, k as nat),
            forall|p: int| 0 <= p < pi ==> covers(buf@, #[trigger] offered(states@, cp as int, delta as int, p), k as nat),
            forall|x: int| full_below(b0, x, k as nat) ==> #[trigger] full_below(buf@, x, k as nat),
            pi >= 1 ==> buf@.len() >= min_nat(k as nat, pi as nat) && buf@[min_nat(k as nat, pi as nat) - 1].cost
                <= offered(states@, cp as int, delta as int, pi - 1).cost,
            no_dup(b0) && (forall|x: PathState| #[trigger] b0.contains(x) ==> x.prev_candidate != Some(cp)) ==> no_dup(buf@),
            st_sorted(b0),
            forall|x: PathState| #[trigger] b0.contains(x) ==> x.prev_candidate->0 < cp,
            st_sorted(buf@),
            forall|o: PathState| lcovers(b0, o, k as nat) ==> #[trigger] lcovers(buf@, o, k as nat),
            forall|p: int| 0 <= p < pi ==> lcovers(buf@, #[trigger] offered(states@, cp as int, delta as int, p), k as nat),
            forall|o: PathState| lfull(b0, o, k as nat) ==> #[trigger] lfull(buf@, o, k as nat),
            pi >= 1 ==> buf@.len() >= min_nat(k as nat, pi as nat) && (buf@[min_nat(k as nat, pi as nat) - 1]
                == offered(states@, cp as int, delta as int, pi - 1) || st_lt(
                buf@[min_nat(k as nat, pi as nat) - 1],
                offered(states@, cp as int, delta as int, pi - 1),
            )),
        decreases states@.len() - pi,
    {
        let item = PathState { cost: states[pi].cost + delta, prev_candidate: Some(cp), prev_path: Some(pi) };
        assert(item == offered(states@, cp as int, delta as int, pi as int));
        let ghost before = buf@;
        proof {
            assert forall|x: PathState| #[trigger] before.contains(x) implies st_lt(x, item) || item.cost < x.cost by {
                if !b0.contains(x) {
                    let p = choose|p: int| 0 <= p < pi && x == offered(states@, cp as int, delta as int, p);
                    assert(states@[p].cost <= states@[pi as int].cost);
                }
            }
        }
        let pos = insert_bounded(buf, item, k);
        proof {
            lemma_insert_order(before, buf@, item, pos as int, k as nat);
            if pi > 0 {
                let prev_item = offered(states@, cp as int, delta as int, pi - 1);
                assert(states@[pi - 1].cost <= states@[pi as int].cost);
                assert(st_lt(prev_item, item));
                let m = min_nat(k as nat, pi as nat) as int;
                lemma_st_trans_or_eq(before[m - 1], prev_item, item);
            }
            assert(min_nat(k as nat, (if pi == 0 { 0int } else { min_nat(k as nat, pi as nat) as int } + 1) as nat) == min_nat(k as nat, (pi + 1) as nat));
            assert forall|p: int| 0 <= p < pi + 1 implies lcovers(buf@, #[trigger] offered(states@, cp as int, delta as int, p), k as nat) by {
                if p < pi {
                    assert(lcovers(before, offered(states@, cp as int, delta as int, p), k as nat));
                }
            }
            lemma_insert_facts(before, buf@, item, pos as int, k as nat);
            let m: int = if pi == 0 { 0 } else { min_nat(k as nat, pi as nat) as int };
            if pi > 0 {
                assert(states@[pi - 1].cost <= states@[pi as int].cost);
            }
            assert(0 <= m <= k && before.len() >= m && (m > 0 ==> before[m - 1].cost <= item.cost));
            assert(buf@.len() >= min_nat(k as nat, (m + 1) as nat) && buf@[min_nat(k as nat, (m + 1) as nat) - 1].cost <= item.cost);
            assert(min_nat(k as nat, (m + 1) as nat) == min_nat(k as nat, (pi + 1) as nat));
            assert forall|x: PathState| #[trigger] buf@.contains(x) implies b0.contains(x) || exists|p: int|
                0 <= p < pi + 1 && x == offered(states@, cp as int, delta as int, p) by {
                if x != item {
                    assert(before.contains(x));
                }
            }
            assert forall|p: int| 0 <= p < pi + 1 implies covers(buf@, #[trigger] offered(states@, cp as int, delta as int, p), k as nat) by {
                if p < pi {
                    assert(covers(before, offered(states@, cp as int, delta as int, p), k as nat));
                }
            }
            if no_dup(b0) && (forall|x: PathState| #[trigger] b0.contains(x) ==> x.prev_candidate != Some(cp)) {
                assert(!before.contains(item)) by {
                    if before.contains(item) {
                        if !b0.contains(item) {
                            let p = choose|p: int| 0 <= p < pi && item == offered(states@, cp as int, delta as int, p);
                            assert(item.prev_path == Some(p as usize));
                        }
                    }
                }
            }
        }
        pi = pi + 1;
    }
    proof {
        if states@.len() == k {
            assert(min_nat(k as nat, k as nat) == k);
            assert(buf@.len() == k);
        }
    }
}

/// The search order is transitive, also through an equal middle path.
proof fn lemma_st_trans_or_eq(x: PathState, y: PathState, z: PathState)
    requires
        x == y || st_lt(x, y),
        st_lt(y, z),
    ensures
        st_lt(x, z),
{
}

/// The k-best paths through the layered candidate graph, cheapest first:
/// each a [`Harmonization`] with one candidate per layer, the minimal
/// voice-leading movement between consecutive chords, and its total.
/// Empty when there are no layers or `k` is 0. The results follow pairwise
/// distinct paths of candidate indices, and every path left out costs at
/// least as much as each one returned; when no layer repeats a chord no
/// chord sequence is returned twice.
#[verifier::rlimit(60)]
pub fn top_k_viterbi(layers: &[Vec<VoicedChord>], k: usize) -> (r: Vec<Harmonization>)
    requires
        layers@.len() <= 4_000_000,
    ensures
        layers@.len() == 0 || k == 0 ==> r@.len() == 0,
        layers@.len() > 0 && k > 0 ==> r@.len() == min_nat(k as nat, path_count(layers_view(layers@), layers@.len() as int)),
        forall|i: int| 0 <= i < r@.len() ==> is_progression(layers_view(layers@), #[trigger] r@[i]),
        forall|i: int, j: int| 0 <= i < j < r@.len() ==> r@[i].total_movement <= r@[j].total_movement,
        layers@.len() > 0 && k > 0 ==> forall|h: Harmonization|
            is_progression(layers_view(layers@), h) && (forall|i: int| 0 <= i < r@.len() ==> (#[trigger] r@[i]).chords@ != h.chords@)
                ==> #[trigger] all_kept_no_dearer(r@, h, k as nat),
        distinct_candidates(layers_view(layers@)) ==> forall|i: int, j: int|
            0 <= i < j < r@.len() ==> (#[trigger] r@[i]).chords@ != (#[trigger] r@[j]).chords@,
        layers@.len() > 0 && k > 0 ==> exists|ps: Seq<Seq<usize>>| k_best_paths(layers_view(layers@), r@, k as nat, ps),
{
    if layers.len() == 0 || k == 0 {
        return Vec::new();
    }
    let ghost ls = layers_view(layers@);
    let n = layers.len();
    let mut dp: Vec<Vec<Vec<PathState>>> = Vec::new();
    let mut first_layer: Vec<Vec<PathState>> = Vec::new();
    let mut c0: usize = 0;
    while c0 < layers[0].len()
        invariant
            0 <= c0 <= layers@[0]@.len(),
            n == layers@.len(),
            n > 0,
            first_layer@.len() == c0,
            forall|c: int| 0 <= c < c0 ==> (#[trigger] first_layer@[c])@.len() == 1 && first_layer@[c]@[0].cost == 0,
        decreases layers@[0]@.len() - c0,
    {
        let mut one: Vec<PathState> = Vec::new();
        one.push(PathState { cost: 0, prev_candidate: None, prev_path: None });
        first_layer.push(one);
        c0 = c0 + 1;
    }
    dp.push(first_layer);
    proof {
        assert(layer_ok(ls, dp_view(dp@), 0, k as nat));
        assert(dp_ok(ls, dp_view(dp@), 1, k as nat));
        lemma_complete_first(ls, dp_view(dp@), k as nat);
        lemma_ordered_first(ls, dp_view(dp@), k as nat);
        assert forall|j: int| 0 <= j < ls.len() implies #[trigger] ls[j].len() <= usize::MAX by {
            assert(layers@[j]@.len() == layers@[j].len());
        }
    }
    let mut layer_idx: usize = 1;
    while layer_idx < n
        invariant
            1 <= layer_idx <= n,
            n == layers@.len(),
            n <= 4_000_000,
            k >= 1,
            ls == layers_view(layers@),
            dp_ok(ls, dp_view(dp@), layer_idx as int, k as nat),
            forall|l: int| 0 <= l < layer_idx ==> #[trigger] complete_at(ls, dp_view(dp@), l, k as nat),
            forall|l: int| 0 <= l < layer_idx ==> #[trigger] ordered_at(ls, dp_view(dp@), l, k as nat),
            forall|j: int| 0 <= j < ls.len() ==> #[trigger] ls[j].len() <= usize::MAX,
        decreases n - layer_idx,
    {
        let prev_dp = &dp[layer_idx - 1];
        let prev_layer = &layers[layer_idx - 1];
        let cur_layer = &layers[layer_idx];
        let ghost prev_view = dp_view(dp@)[layer_idx - 1];
        let ghost li = layer_idx as int;
        let mut layer_dp: Vec<Vec<PathState>> = Vec::new();
        let mut cn: usize = 0;
        while cn < cur_layer.len()
            invariant
                0 <= cn <= cur_layer@.len(),
                1 <= layer_idx < n,
                li == layer_idx,
                n <= 4_000_000,
                k >= 1,
                cur_layer@ == ls[li],
                prev_layer@ == ls[li - 1],
                prev_view == dp_view(dp@)[li - 1],
                layer_ok(ls, dp_view(dp@), li - 1, k as nat),
                dp@.len() == layer_idx,
                prev_dp@.len() == prev_view.len(),
                forall|c: int| 0 <= c < prev_view.len() ==> (#[trigger] prev_dp@[c])@ == prev_view[c],
                layer_dp@.len() == cn,
                forall|c: int| 0 <= c < cn ==> sorted_costs(#[trigger] layer_dp@[c]@),
                forall|c: int| 0 <= c < cn ==> no_dup(#[trigger] layer_dp@[c]@),
                forall|c: int| 0 <= c < cn ==> (#[trigger] layer_dp@[c]@).len() == min_nat(k as nat, path_count(ls, li)),
                forall|c: int, p: int| 0 <= c < cn && 0 <= p < layer_dp@[c]@.len() ==> (#[trigger] layer_dp@[c]@[p]).cost <= 1020 * li,
                forall|c: int, p: int| 0 <= c < cn && 0 <= p < layer_dp@[c]@.len() ==> links_back(ls, prev_view, li, c, #[trigger] layer_dp@[c]@[p]),
                forall|c: int, cp: int, pp: int|
                    0 <= c < cn && 0 <= cp < prev_view.len() && 0 <= pp < prev_view[cp].len() ==> covers(
                        layer_dp@[c]@,
                        #[trigger] offered(prev_view[cp], cp, step_cost(ls, li - 1, cp, c), pp),
                        k as nat,
                    ),
                forall|c: int, cp: int|
                    0 <= c < cn && 0 <= cp < prev_view.len() && prev_view[cp].len() == k ==> #[trigger] full_below(
                        layer_dp@[c]@,
                        prev_view[cp][k - 1].cost + step_cost(ls, li - 1, cp, c),
                        k as nat,
                    ),
                forall|c: int| 0 <= c < cn ==> st_sorted(#[trigger] layer_dp@[c]@),
                forall|c: int, cp: int, pp: int|
                    0 <= c < cn && 0 <= cp < prev_view.len() && 0 <= pp < prev_view[cp].len() ==> lcovers(
                        layer_dp@[c]@,
                        #[trigger] offered(prev_view[cp], cp, step_cost(ls, li - 1, cp, c), pp),
                        k as nat,
                    ),
                forall|c: int, cp: int|
                    0 <= c < cn && 0 <= cp < prev_view.len() && prev_view[cp].len() == k ==> #[trigger] lfull(
                        layer_dp@[c]@,
                        offered(prev_view[cp], cp, step_cost(ls, li - 1, cp, c), k - 1),
                        k as nat,
                    ),
            decreases cur_layer@.len() - cn,
        {
            let mut incoming: Vec<PathState> = Vec::new();
            let ghost mut seen: nat = 0;
            let mut cp: usize = 0;
            while cp < prev_layer.len()
                invariant
                    0 <= cp <= prev_layer@.len(),
                    cn < cur_layer@.len(),
                    1 <= layer_idx < n,
                    li == layer_idx,
                    n <= 4_000_000,
                    k >= 1,
                    cur_layer@ == ls[li],
                    prev_layer@ == ls[li - 1],
                    layer_ok(ls, dp_view(dp@), li - 1, k as nat),
                    dp@.len() == layer_idx,
                    prev_view == dp_view(dp@)[li - 1],
                    prev_view.len() == prev_layer@.len(),
                    prev_dp@.len() == prev_view.len(),
                    forall|c: int| 0 <= c < prev_view.len() ==> (#[trigger] prev_dp@[c])@ == prev_view[c],
                    sorted_costs(incoming@),
                    no_dup(incoming@),
                    incoming@.len() == min_nat(k as nat, seen),
                    seen == cp * (if li == 1 { 1 } else { min_nat(k as nat, path_count(ls, li - 1)) }),
                    forall|x: PathState| #[trigger] incoming@.contains(x) ==> x.cost <= 1020 * li && links_back(ls, prev_view, li, cn as int, x)
                        && x.prev_candidate->0 < cp,
                    forall|c2: int, pp: int|
                        0 <= c2 < cp && 0 <= pp < prev_view[c2].len() ==> covers(
                            incoming@,
                            #[trigger] offered(prev_view[c2], c2, step_cost(ls, li - 1, c2, cn as int), pp),
                            k as nat,
                        ),
                    forall|c2: int|
                        0 <= c2 < cp && prev_view[c2].len() == k ==> #[trigger] full_below(
                            incoming@,
                            prev_view[c2][k - 1].cost + step_cost(ls, li - 1, c2, cn as int),
                            k as nat,
                        ),
                    st_sorted(incoming@),
                    forall|c2: int, pp: int|
                        0 <= c2 < cp && 0 <= pp < prev_view[c2].len() ==> lcovers(
                            incoming@,
                            #[trigger] offered(prev_view[c2], c2, step_cost(ls, li - 1, c2, cn as int), pp),
                            k as nat,
                        ),
                    forall|c2: int|
                        0 <= c2 < cp && prev_view[c2].len() == k ==> #[trigger] lfull(
                            incoming@,
                            offered(prev_view[c2], c2, step_cost(ls, li - 1, c2, cn as int), k - 1),
                            k as nat,
                        ),
                decreases prev_layer@.len() - cp,
            {
                let edge_cost = min_voiced_chord_l1(&prev_layer[cp], &cur_layer[cn]);
                let states = &prev_dp[cp];
                let ghost before = incoming@;
                proof {
                    assert(states@ == prev_view[cp as int]);
                    assert forall|p: int| 0 <= p < states@.len() implies (#[trigger] states@[p]).cost + edge_cost <= 1020 * li by {
                        assert(prev_view[cp as int][p].cost <= 1020 * (li - 1));
                    }
                    assert(sorted_costs(states@));
                    assert(states@.len() <= k);
                }
                offer_states(&mut incoming, states, cp, edge_cost, k, Ghost(1020 * li));
                proof {
                    let sv = states@;
                    assert(edge_cost == step_cost(ls, li - 1, cp as int, cn as int));
                    assert forall|x: PathState| #[trigger] incoming@.contains(x) implies x.cost <= 1020 * li && links_back(ls, prev_view, li, cn as int, x)
                        && x.prev_candidate->0 < cp + 1 by {
                        if !before.contains(x) {
                            let p = choose|p: int| 0 <= p < sv.len() && x == offered(sv, cp as int, edge_cost as int, p);
                            assert(sv[p].cost <= 1020 * (li - 1));
                        }
                    }
                    assert forall|c2: int, pp: int|
                        0 <= c2 < cp + 1 && 0 <= pp < prev_view[c2].len() implies covers(
                            incoming@,
                            #[trigger] offered(prev_view[c2], c2, step_cost(ls, li - 1, c2, cn as int), pp),
                            k as nat,
                        ) by {
                        if c2 < cp {
                            assert(covers(before, offered(prev_view[c2], c2, step_cost(ls, li - 1, c2, cn as int), pp), k as nat));
                        } else {
                            assert(offered(prev_view[c2], c2, step_cost(ls, li - 1, c2, cn as int), pp) == offered(sv, cp as int, edge_cost as int, pp));
                        }
                    }
                    assert forall|c2: int|
                        0 <= c2 < cp + 1 && prev_view[c2].len() == k implies #[trigger] full_below(
                            incoming@,
                            prev_view[c2][k - 1].cost + step_cost(ls, li - 1, c2, cn as int),
                            k as nat,
                        ) by {
                        if c2 < cp {
                            assert(full_below(before, prev_view[c2][k - 1].cost + step_cost(ls, li - 1, c2, cn as int), k as nat));
                        }
                    }
                    assert forall|x: PathState| #[trigger] before.contains(x) implies x.prev_candidate != Some(cp) by {
                        assert(x.prev_candidate->0 < cp);
                    }
                    assert forall|c2: int, pp: int|
                        0 <= c2 < cp + 1 && 0 <= pp < prev_view[c2].len() implies lcovers(
                            incoming@,
                            #[trigger] offered(prev_view[c2], c2, step_cost(ls, li - 1, c2, cn as int), pp),
                            k as nat,
                        ) by {
                        if c2 < cp {
                            assert(lcovers(before, offered(prev_view[c2], c2, step_cost(ls, li - 1, c2, cn as int), pp), k as nat));
                        } else {
                            assert(offered(prev_view[c2], c2, step_cost(ls, li - 1, c2, cn as int), pp) == offered(sv, cp as int, edge_cost as int, pp));
                        }
                    }
                    assert forall|c2: int|
                        0 <= c2 < cp + 1 && prev_view[c2].len() == k implies #[trigger] lfull(
                            incoming@,
                            offered(prev_view[c2], c2, step_cost(ls, li - 1, c2, cn as int), k - 1),
                            k as nat,
                        ) by {
                        if c2 < cp {
                            assert(lfull(before, offered(prev_view[c2], c2, step_cost(ls, li - 1, c2, cn as int), k - 1), k as nat));
                        } else {
                            assert(offered(prev_view[c2], c2, step_cost(ls, li - 1, c2, cn as int), k - 1) == offered(sv, cp as int, edge_cost as int, k - 1));
                        }
                    }
                    assert(prev_view[cp as int].len() == if li - 1 == 0 { 1 } else { min_nat(k as nat, path_count(ls, li - 1)) });
                    seen = seen + states@.len();
                    assert(seen == (cp + 1) * (if li == 1 { 1 } else { min_nat(k as nat, path_count(ls, li - 1)) })) by (nonlinear_arith)
                        requires
                            seen == cp * (if li == 1 { 1 } else { min_nat(k as nat, path_count(ls, li - 1)) }) + states@.len(),
                            states@.len() == (if li == 1 { 1 } else { min_nat(k as nat, path_count(ls, li - 1)) });
                }
                cp = cp + 1;
            }
            proof {
                lemma_count_step(ls, li, k as nat, seen);
                assert forall|p: int| 0 <= p < incoming@.len() implies (#[trigger] incoming@[p]).cost <= 1020 * li && links_back(ls, prev_view, li, cn as int, incoming@[p]) by {
                    assert(incoming@.contains(incoming@[p]));
                }
            }
            let ghost inc = incoming@;
            layer_dp.push(incoming);
            proof {
                assert(layer_dp@[cn as int]@ == inc);
            }
            cn = cn + 1;
        }
        let ghost dv_before = dp_view(dp@);
        let ghost new_layer = layer_dp@;
        dp.push(layer_dp);
        proof {
            let dv = dp_view(dp@);
            assert forall|l: int| 0 <= l < layer_idx implies #[trigger] dv[l] == dv_before[l] by {
                assert(dv[l] =~= dv_before[l]);
            }
            assert forall|l: int| 0 <= l < layer_idx implies layer_ok(ls, dv, l, k as nat) by {
                assert(layer_ok(ls, dv_before, l, k as nat));
                assert(dv[l] == dv_before[l]);
                if l > 0 {
                    assert(dv[l - 1] == dv_before[l - 1]);
                }
            }
            assert(dv[li] =~= Seq::new(new_layer.len(), |c: int| new_layer[c]@));
            assert(dv[li - 1] == prev_view);
            assert(layer_ok(ls, dv, li, k as nat));
            assert(dp_ok(ls, dv, li + 1, k as nat));
            assert forall|l: int| 0 <= l < layer_idx implies #[trigger] complete_at(ls, dv, l, k as nat) by {
                assert(complete_at(ls, dv_before, l, k as nat));
                assert forall|m: int| 0 <= m <= l implies #[trigger] dv_before[m] == dv[m] by {}
                lemma_complete_prefix(ls, dv_before, dv, l, k as nat);
            }
            assert(complete_at(ls, dv, li - 1, k as nat));
            lemma_layer_complete(ls, dv, li, k as nat);
            assert forall|l: int| 0 <= l < layer_idx implies #[trigger] ordered_at(ls, dv, l, k as nat) by {
                assert(ordered_at(ls, dv_before, l, k as nat));
                assert forall|m: int| 0 <= m <= l implies #[trigger] dv_before[m] == dv[m] by {}
                lemma_ordered_prefix(ls, dv_before, dv, l, k as nat);
            }
            lemma_layer_ordered(ls, dv, li, k as nat);
        }
        layer_idx = layer_idx + 1;
    }
    proof {
        assert(complete_at(ls, dp_view(dp@), n - 1, k as nat));
    }
    proof {
        assert(ordered_at(ls, dp_view(dp@), n - 1, k as nat));
    }
    top_k_finish(layers, &dp, k, Ghost(ls))
}

/// The counting identity behind the number of kept paths: with `seen`
/// incoming paths, `min(k, seen)` is `min(k, path_count)` of the new layer.
proof fn lemma_count_step(ls: Seq<Seq<VoicedChord>>, l: int, k: nat, seen: nat)
    requires
        l >= 1,
        k >= 1,
        seen == ls[l - 1].len() * (if l == 1 { 1 } else { min_nat(k, path_count(ls, l - 1)) }),
    ensures
        min_nat(k, seen) == min_nat(k, path_count(ls, l)),
{
    let a = ls[l - 1].len();
    let pc = path_count(ls, l - 1);
    assert(path_count(ls, l) == pc * a);
    if l == 1 {
        assert(pc == 1);
        assert(seen == a);
        assert(pc * a == a) by (nonlinear_arith)
            requires
                pc == 1,
        ;
    } else {
        let m = min_nat(k, pc);
        assert(min_nat(k, a * m) == min_nat(k, pc * a)) by (nonlinear_arith)
            requires
                m == (if k <= pc { k } else { pc }),
                k >= 1,
        {
            if k <= pc {
                if a == 0 {
                } else {
                    assert(a * k >= k);
                    assert(pc * a >= k * a);
                }
            }
        }
    }
}

/// The final selection and the reconstruction of the k-best paths.
fn top_k_finish(layers: &[Vec<VoicedChord>], dp: &Vec<Vec<Vec<PathState>>>, k: usize, Ghost(ls): Ghost<Seq<Seq<VoicedChord>>>) -> (r: Vec<Harmonization>)
    requires
        layers@.len() > 0,
        layers@.len() <= 4_000_000,
        k >= 1,
        ls == layers_view(layers@),
        dp_ok(ls, dp_view(dp@), layers@.len() as int, k as nat),
        complete_at(ls, dp_view(dp@), layers@.len() - 1, k as nat),
        ordered_at(ls, dp_view(dp@), layers@.len() - 1, k as nat),
    ensures
        r@.len() == min_nat(k as nat, path_count(ls, layers@.len() as int)),
        forall|i: int| 0 <= i < r@.len() ==> is_progression(ls, #[trigger] r@[i]),
        forall|i: int, j: int| 0 <= i < j < r@.len() ==> r@[i].total_movement <= r@[j].total_movement,
        forall|h: Harmonization|
            is_progression(ls, h) && (forall|i: int| 0 <= i < r@.len() ==> (#[trigger] r@[i]).chords@ != h.chords@)
                ==> #[trigger] all_kept_no_dearer(r@, h, k as nat),
        distinct_candidates(ls) ==> forall|i: int, j: int| 0 <= i < j < r@.len() ==> (#[trigger] r@[i]).chords@ != (#[trigger] r@[j]).chords@,
        exists|ps: Seq<Seq<usize>>| k_best_paths(ls, r@, k as nat, ps),
{
    let n = layers.len();
    let last = n - 1;
    let ghost dv = dp_view(dp@);
    let last_dp = &dp[last];
    proof {
        assert(layer_ok(ls, dv, last as int, k as nat));
    }
    let mut finals: Vec<PathState> = Vec::new();
    let ghost mut seen: nat = 0;
    let per: Ghost<nat> = Ghost(if last == 0 { 1 } else { min_nat(k as nat, path_count(ls, last as int)) });
    let mut c: usize = 0;
    while c < last_dp.len()
        invariant
            0 <= c <= last_dp@.len(),
            last == n - 1,
            n == layers@.len(),
            n <= 4_000_000,
            k >= 1,
            dp_ok(ls, dv, n as int, k as nat),
            dv == dp_view(dp@),
            last_dp@.len() == dv[last as int].len(),
            forall|x: int| 0 <= x < last_dp@.len() ==> (#[trigger] last_dp@[x])@ == dv[last as int][x],
            per@ == (if last == 0 { 1 } else { min_nat(k as nat, path_count(ls, last as int)) }),
            sorted_costs(finals@),
            no_dup(finals@),
            finals@.len() == min_nat(k as nat, seen),
            seen == c * per@,
            forall|x: PathState| #[trigger] finals@.contains(x) ==> final_ok(dv, last as int, x) && x.prev_candidate->0 < c,
            forall|c2: int, pp: int|
                0 <= c2 < c && 0 <= pp < dv[last as int][c2].len() ==> covers(
                    finals@,
                    #[trigger] offered(dv[last as int][c2], c2, 0, pp),
                    k as nat,
                ),
            forall|c2: int|
                0 <= c2 < c && dv[last as int][c2].len() == k ==> #[trigger] full_below(
                    finals@,
                    dv[last as int][c2][k - 1].cost + 0,
                    k as nat,
                ),
            st_sorted(finals@),
            forall|c2: int, pp: int|
                0 <= c2 < c && 0 <= pp < dv[last as int][c2].len() ==> lcovers(
                    finals@,
                    #[trigger] offered(dv[last as int][c2], c2, 0, pp),
                    k as nat,
                ),
            forall|c2: int|
                0 <= c2 < c && dv[last as int][c2].len() == k ==> #[trigger] lfull(
                    finals@,
                    offered(dv[last as int][c2], c2, 0, k - 1),
                    k as nat,
                ),
        decreases last_dp@.len() - c,
    {
        let paths = &last_dp[c];
        let ghost before = finals@;
        proof {
            assert(layer_ok(ls, dv, last as int, k as nat));
            assert(paths@ == dv[last as int][c as int]);
            assert forall|p: int| 0 <= p < paths@.len() implies (#[trigger] paths@[p]).cost + 0u32 <= 1020 * last by {
                assert(dv[last as int][c as int][p].cost <= 1020 * last);
            }
        }
        offer_states(&mut finals, paths, c, 0, k, Ghost(1020 * last));
        proof {
            let sv = paths@;
            assert forall|x: PathState| #[trigger] finals@.contains(x) implies final_ok(dv, last as int, x) && x.prev_candidate->0 < c + 1 by {
                if !before.contains(x) {
                    let p = choose|p: int| 0 <= p < sv.len() && x == offered(sv, c as int, 0, p);
                }
            }
            assert forall|c2: int, pp: int|
                0 <= c2 < c + 1 && 0 <= pp < dv[last as int][c2].len() implies covers(
                    finals@,
                    #[trigger] offered(dv[last as int][c2], c2, 0, pp),
                    k as nat,
                ) by {
                if c2 < c {
                    assert(covers(before, offered(dv[last as int][c2], c2, 0, pp), k as nat));
                } else {
                    assert(offered(dv[last as int][c2], c2, 0, pp) == offered(sv, c as int, 0u32 as int, pp));
                }
            }
            assert forall|c2: int|
                0 <= c2 < c + 1 && dv[last as int][c2].len() == k implies #[trigger] full_below(
                    finals@,
                    dv[last as int][c2][k - 1].cost + 0,
                    k as nat,
                ) by {
                if c2 < c {
                    assert(full_below(before, dv[last as int][c2][k - 1].cost + 0, k as nat));
                }
            }
            assert forall|x: PathState| #[trigger] before.contains(x) implies x.prev_candidate != Some(c) by {
                assert(x.prev_candidate->0 < c);
            }
            assert forall|c2: int, pp: int|
                0 <= c2 < c + 1 && 0 <= pp < dv[last as int][c2].len() implies lcovers(
                    finals@,
                    #[trigger] offered(dv[last as int][c2], c2, 0, pp),
                    k as nat,
                ) by {
                if c2 < c {
                    assert(lcovers(before, offered(dv[last as int][c2], c2, 0, pp), k as nat));
                } else {
                    assert(offered(dv[last as int][c2], c2, 0, pp) == offered(sv, c as int, 0u32 as int, pp));
                }
            }
            assert forall|c2: int|
                0 <= c2 < c + 1 && dv[last as int][c2].len() == k implies #[trigger] lfull(
                    finals@,
                    offered(dv[last as int][c2], c2, 0, k - 1),
                    k as nat,
                ) by {
                if c2 < c {
                    assert(lfull(before, offered(dv[last as int][c2], c2, 0, k - 1), k as nat));
                } else {
                    assert(offered(dv[last as int][c2], c2, 0, k - 1) == offered(sv, c as int, 0u32 as int, k - 1));
                }
            }
        }
        proof {
            assert(layer_ok(ls, dv, last as int, k as nat));
            assert(paths@.len() == per@);
            seen = seen + paths@.len();
            assert(seen == (c + 1) * per@) by (nonlinear_arith)
                requires
                    seen == c * per@ + paths@.len(),
                    paths@.len() == per@;
        }
        c = c + 1;
    }
    proof {
        assert(layer_ok(ls, dv, last as int, k as nat));
        assert(dv[last as int].len() == ls[last as int].len());
        assert(c == ls[last as int].len());
        assert(path_count(ls, n as int) == path_count(ls, last as int) * ls[last as int].len());
        if last == 0 {
            assert(path_count(ls, 0) == 1);
            assert(per@ == 1);
            assert(seen == c) by (nonlinear_arith)
                requires
                    seen == c * per@,
                    per@ == 1,
            ;
            assert(path_count(ls, n as int) == ls[0].len()) by (nonlinear_arith)
                requires
                    path_count(ls, n as int) == path_count(ls, 0) * ls[0].len(),
                    path_count(ls, 0) == 1,
            ;
        } else {
            assert(seen == ls[n - 1].len() * min_nat(k as nat, path_count(ls, n - 1)));
            lemma_count_step(ls, n as int, k as nat, seen);
        }
    }
    proof {
        lemma_finals_complete(ls, dv, n as int, k as nat, finals@);
    }
    let mut out: Vec<Harmonization> = Vec::new();
    let mut f: usize = 0;
    while f < finals.len()
        invariant
            0 <= f <= finals@.len(),
            n == layers@.len(),
            last == n - 1,
            k >= 1,
            ls == layers_view(layers@),
            dp_ok(ls, dv, n as int, k as nat),
            dv == dp_view(dp@),
            sorted_costs(finals@),
            finals@.len() == min_nat(k as nat, path_count(ls, n as int)),
            forall|x: PathState| #[trigger] finals@.contains(x) ==> final_ok(dv, last as int, x),
            out@.len() == f,
            forall|i: int| 0 <= i < f ==> is_progression(ls, #[trigger] out@[i]),
            forall|i: int| 0 <= i < f ==> (#[trigger] out@[i]).total_movement == finals@[i].cost,
            forall|i: int| 0 <= i < f ==> (#[trigger] out@[i]).chords@ == chords_of(ls, fin_trace(dv, last as int, finals@[i])),
        decreases finals@.len() - f,
    {
        proof {
            assert(finals@.contains(finals@[f as int]));
        }
        let h = rebuild(layers, dp, finals[f], Ghost(ls), Ghost(k as nat));
        out.push(h);
        f = f + 1;
    }
    proof {
        assert forall|i: int, j: int| 0 <= i < j < out@.len() implies out@[i].total_movement <= out@[j].total_movement by {
            assert(finals@[i].cost <= finals@[j].cost);
        }
        assert forall|j: int| 0 <= j < ls.len() implies #[trigger] ls[j].len() <= usize::MAX by {
            assert(layers@[j]@.len() == layers@[j].len());
        }
        assert forall|h: Harmonization|
            is_progression(ls, h) && (forall|i: int| 0 <= i < out@.len() ==> (#[trigger] out@[i]).chords@ != h.chords@)
                implies #[trigger] all_kept_no_dearer(out@, h, k as nat) by {
            let s = lemma_progression_path(ls, h);
            if exists|i: int| 0 <= i < finals@.len() && #[trigger] fin_trace(dv, last as int, finals@[i]) == s {
                let i = choose|i: int| 0 <= i < finals@.len() && #[trigger] fin_trace(dv, last as int, finals@[i]) == s;
                assert(out@[i].chords@ == h.chords@);
            } else {
                assert(full_below(finals@, path_cost(ls, s), k as nat));
                assert(out@[k - 1].total_movement == finals@[k - 1].cost);
            }
        }
        let ps = Seq::new(finals@.len(), |i: int| fin_trace(dv, last as int, finals@[i]));
        assert forall|i: int| 0 <= i < ps.len() implies is_path(ls, #[trigger] ps[i]) && ps[i].len() == ls.len()
            && out@[i].chords@ == chords_of(ls, ps[i]) && out@[i].total_movement == path_cost(ls, ps[i]) by {
            let xi = finals@[i];
            assert(finals@.contains(xi));
            lemma_trace(ls, dv, n as int, k as nat, last as int, xi.prev_candidate->0 as int, xi.prev_path->0 as int);
        }
        assert forall|i: int, j: int| 0 <= i < j < ps.len() implies #[trigger] ps[i] != #[trigger] ps[j] by {
            let xi = finals@[i];
            let xj = finals@[j];
            assert(finals@.contains(xi));
            assert(finals@.contains(xj));
            assert(xi != xj);
            let ci = xi.prev_candidate->0 as int;
            let cj = xj.prev_candidate->0 as int;
            let pi = xi.prev_path->0 as int;
            let pj = xj.prev_path->0 as int;
            assert(ci != cj || pi != pj);
            lemma_trace_injective(ls, dv, n as int, k as nat, last as int, ci, pi, cj, pj);
        }
        assert forall|s: Seq<usize>| #[trigger] is_path(ls, s) && s.len() == ls.len() && !ps.contains(s) implies (k as nat)
            >= 1 && out@.len() == (k as nat) && out@[(k as nat) - 1].total_movement <= path_cost(ls, s) by {
            if exists|i: int| 0 <= i < finals@.len() && #[trigger] fin_trace(dv, last as int, finals@[i]) == s {
                let i = choose|i: int| 0 <= i < finals@.len() && #[trigger] fin_trace(dv, last as int, finals@[i]) == s;
                assert(ps[i] == s);
                assert(ps.contains(s));
            } else {
                lemma_finals_complete(ls, dv, n as int, k as nat, finals@);
                assert(full_below(finals@, path_cost(ls, s), k as nat));
                assert(out@[k - 1].total_movement == finals@[k - 1].cost);
            }
        }
        assert forall|i: int, j: int| 0 <= i < j < ps.len() implies path_before(ls, #[trigger] ps[i], #[trigger] ps[j]) by {
            assert(finals@.contains(finals@[i]));
            assert(finals@.contains(finals@[j]));
            lemma_final_order(ls, dv, n as int, k as nat, finals@[i], finals@[j]);
        }
        assert forall|s: Seq<usize>| #[trigger] is_path(ls, s) && s.len() == ls.len() && !ps.contains(s) implies (k as nat)
            >= 1 && ps.len() == (k as nat) && path_before(ls, ps[(k as nat) - 1], s) by {
            let c = s[last as int] as int;
            assert(ordered_for(ls, dv, last as int, k as nat, s));
            if exists|p: int| 0 <= p < dv[last as int][c].len() && trace(dv, last as int, c, p) == s {
                let p = choose|p: int| 0 <= p < dv[last as int][c].len() && trace(dv, last as int, c, p) == s;
                let o = offered(dv[last as int][c], c, 0, p);
                assert(lcovers(finals@, o, k as nat));
                assert(fin_trace(dv, last as int, o) == s);
                if finals@.contains(o) {
                    let i = choose|i: int| 0 <= i < finals@.len() && finals@[i] == o;
                    assert(ps[i] == s);
                } else {
                    assert(finals@.contains(finals@[k - 1]));
                    lemma_final_order(ls, dv, n as int, k as nat, finals@[k - 1], o);
                }
            } else {
                let o = offered(dv[last as int][c], c, 0, k - 1);
                assert(lfull(finals@, o, k as nat));
                let t = fin_trace(dv, last as int, o);
                lemma_trace(ls, dv, n as int, k as nat, last as int, c, k - 1);
                assert(t == trace(dv, last as int, c, k - 1));
                assert(path_before(ls, t, s));
                assert(finals@.contains(finals@[k - 1]));
                if finals@[k - 1] != o {
                    lemma_final_order(ls, dv, n as int, k as nat, finals@[k - 1], o);
                    lemma_path_before_trans(ls, ps[k - 1], t, s);
                }
            }
        }
        assert(k_best_paths(ls, out@, k as nat, ps));
        if distinct_candidates(ls) {
            assert forall|i: int, j: int| 0 <= i < j < out@.len() implies (#[trigger] out@[i]).chords@ != (#[trigger] out@[j]).chords@ by {
                let xi = finals@[i];
                let xj = finals@[j];
                assert(finals@.contains(xi));
                assert(finals@.contains(xj));
                assert(xi != xj);
                let ci = xi.prev_candidate->0 as int;
                let cj = xj.prev_candidate->0 as int;
                let pi = xi.prev_path->0 as int;
                let pj = xj.prev_path->0 as int;
                assert(ci != cj || pi != pj);
                lemma_trace_injective(ls, dv, n as int, k as nat, last as int, ci, pi, cj, pj);
                lemma_trace(ls, dv, n as int, k as nat, last as int, ci, pi);
                lemma_trace(ls, dv, n as int, k as nat, last as int, cj, pj);
                lemma_chords_differ(ls, fin_trace(dv, last as int, xi), fin_trace(dv, last as int, xj));
            }
        }
    }
    out
}

/// `r` holds `k` progressions, none dearer than `h`.
pub open spec fn all_kept_no_dearer(r: Seq<Harmonization>, h: Harmonization, k: nat) -> bool {
    &&& k >= 1
    &&& r.len() == k
    &&& r[k - 1].total_movement <= h.total_movement
}

/// The results `r` follow the pairwise distinct paths of candidate indices
/// `ps` through all the layers, each result picking the chords of its path
/// at the path's cost; every other path through all the layers costs at
/// least as much as the last result, and then all `k` places are filled.
pub open spec fn k_best_paths(ls: Seq<Seq<VoicedChord>>, r: Seq<Harmonization>, k: nat, ps: Seq<Seq<usize>>) -> bool {
    &&& ps.len() == r.len()
    &&& forall|i: int|
        0 <= i < ps.len() ==> is_path(ls, #[trigger] ps[i]) && ps[i].len() == ls.len() && r[i].chords@
            == chords_of(ls, ps[i]) && r[i].total_movement == path_cost(ls, ps[i])
    &&& forall|i: int, j: int| 0 <= i < j < ps.len() ==> #[trigger] ps[i] != #[trigger] ps[j]
    &&& forall|s: Seq<usize>|
        #[trigger] is_path(ls, s) && s.len() == ls.len() && !ps.contains(s) ==> k >= 1 && r.len() == k && r[k
            - 1].total_movement <= path_cost(ls, s)
    &&& forall|i: int, j: int| 0 <= i < j < ps.len() ==> path_before(ls, #[trigger] ps[i], #[trigger] ps[j])
    &&& forall|s: Seq<usize>|
        #[trigger] is_path(ls, s) && s.len() == ls.len() && !ps.contains(s) ==> k >= 1 && ps.len() == k
            && path_before(ls, ps[k - 1], s)
}

/// Among paths through all the layers, `s` comes before `t` in the order
/// of the results: cheaper first, then by the candidate of the last layer,
/// then by the order of the paths kept for that candidate.
pub open spec fn path_before(ls: Seq<Seq<VoicedChord>>, s: Seq<usize>, t: Seq<usize>) -> bool {
    let l = s.len() - 1;
    ||| path_cost(ls, s) < path_cost(ls, t)
    ||| path_cost(ls, s) == path_cost(ls, t) && s[l] < t[l]
    ||| path_cost(ls, s) == path_cost(ls, t) && s[l] == t[l] && rank_before(ls, s, t)
}

/// The order of the results is transitive.
proof fn lemma_path_before_trans(ls: Seq<Seq<VoicedChord>>, s: Seq<usize>, t: Seq<usize>, u: Seq<usize>)
    requires
        s.len() == t.len(),
        t.len() == u.len(),
        path_before(ls, s, t),
        path_before(ls, t, u),
    ensures
        path_before(ls, s, u),
{
    let l = s.len() - 1;
    if path_cost(ls, s) == path_cost(ls, t) && path_cost(ls, t) == path_cost(ls, u) && s[l] == t[l] && t[l] == u[l] {
        lemma_rank_trans(ls, s, t, u);
    }
}

/// No path comes before itself, and of two paths at most one comes first.
proof fn lemma_path_before_asym(ls: Seq<Seq<VoicedChord>>, s: Seq<usize>, t: Seq<usize>)
    requires
        s.len() == t.len(),
        s.len() >= 1,
    ensures
        !path_before(ls, s, s),
        path_before(ls, s, t) ==> !path_before(ls, t, s),
{
    lemma_rank_irrefl(ls, s);
    if path_before(ls, s, t) && path_before(ls, t, s) {
        lemma_path_before_trans(ls, s, t, s);
    }
}

/// Two lists of paths that both hold the first paths in the order of the
/// results, as many of them, and without repeats, are the same list.
proof fn lemma_first_paths_unique(ls: Seq<Seq<VoicedChord>>, k: nat, r1: Seq<Harmonization>, ps1: Seq<Seq<usize>>, r2: Seq<Harmonization>, ps2: Seq<Seq<usize>>)
    requires
        ls.len() >= 1,
        k_best_paths(ls, r1, k, ps1),
        k_best_paths(ls, r2, k, ps2),
        ps1.len() == ps2.len(),
    ensures
        ps1 == ps2,
{
    if exists|i: int| 0 <= i < ps1.len() && ps1[i] != ps2[i] {
        lemma_first_difference(ps1, ps2);
        let i = choose|i: int| 0 <= i < ps1.len() && ps1[i] != ps2[i] && forall|j: int| 0 <= j < i ==> ps1[j] == ps2[j];
        let a = ps1[i];
        let b = ps2[i];
        assert(is_path(ls, a) && a.len() == ls.len());
        assert(is_path(ls, b) && b.len() == ls.len());
        // `b` comes before `a`: `a` is later in the second list, or left out of it.
        assert(path_before(ls, b, a)) by {
            if ps2.contains(a) {
                let j = choose|j: int| 0 <= j < ps2.len() && ps2[j] == a;
                if j < i {
                    assert(ps1[j] == a);
                    assert(ps1[j] != ps1[i]);
                }
                assert(j > i);
                assert(path_before(ls, ps2[i], ps2[j]));
            } else {
                assert(ps2.len() == k && path_before(ls, ps2[k - 1], a));
                if i < k - 1 {
                    assert(path_before(ls, ps2[i], ps2[k - 1]));
                    lemma_path_before_trans(ls, b, ps2[k - 1], a);
                }
            }
        }
        // and `a` comes before `b` in the same way.
        assert(path_before(ls, a, b)) by {
            if ps1.contains(b) {
                let j = choose|j: int| 0 <= j < ps1.len() && ps1[j] == b;
                if j < i {
                    assert(ps2[j] == b);
                    assert(ps2[j] != ps2[i]);
                }
                assert(j > i);
                assert(path_before(ls, ps1[i], ps1[j]));
            } else {
                assert(ps1.len() == k && path_before(ls, ps1[k - 1], b));
                if i < k - 1 {
                    assert(path_before(ls, ps1[i], ps1[k - 1]));
                    lemma_path_before_trans(ls, a, ps1[k - 1], b);
                }
            }
        }
        lemma_path_before_asym(ls, a, b);
    }
    assert(ps1 =~= ps2);
}

/// The first place where two sequences of the same length differ.
proof fn lemma_first_difference(p: Seq<Seq<usize>>, q: Seq<Seq<usize>>)
    requires
        p.len() == q.len(),
        exists|i: int| 0 <= i < p.len() && p[i] != q[i],
    ensures
        exists|i: int| 0 <= i < p.len() && p[i] != q[i] && forall|j: int| 0 <= j < i ==> p[j] == q[j],
    decreases p.len(),
{
    if p[0] != q[0] {
        assert(forall|j: int| 0 <= j < 0 ==> p[j] == q[j]);
    } else {
        let p1 = p.drop_first();
        let q1 = q.drop_first();
        let i = choose|i: int| 0 <= i < p.len() && p[i] != q[i];
        assert(p1[i - 1] != q1[i - 1]);
        lemma_first_difference(p1, q1);
        let i1 = choose|i: int| 0 <= i < p1.len() && p1[i] != q1[i] && forall|j: int| 0 <= j < i ==> p1[j] == q1[j];
        assert(p[i1 + 1] != q[i1 + 1]);
        assert forall|j: int| 0 <= j < i1 + 1 implies p[j] == q[j] by {
            if j > 0 {
                assert(p1[j - 1] == q1[j - 1]);
            }
        }
    }
}

/// **The k-best results are determined.** Two lists of progressions that
/// both meet the k-best contract for the same layers and `k` (as many
/// results, following distinct paths in the order of the results, the
/// first ones in that order) are the same progressions.
pub proof fn lemma_k_best_unique(ls: Seq<Seq<VoicedChord>>, k: nat, r1: Seq<Harmonization>, r2: Seq<Harmonization>)
    requires
        ls.len() >= 1,
        r1.len() == r2.len(),
        forall|i: int| 0 <= i < r1.len() ==> is_progression(ls, #[trigger] r1[i]),
        forall|i: int| 0 <= i < r2.len() ==> is_progression(ls, #[trigger] r2[i]),
        exists|ps: Seq<Seq<usize>>| k_best_paths(ls, r1, k, ps),
        exists|ps: Seq<Seq<usize>>| k_best_paths(ls, r2, k, ps),
    ensures
        forall|i: int|
            0 <= i < r1.len() ==> (#[trigger] r1[i]).chords@ == r2[i].chords@ && r1[i].per_step_movements@
                == r2[i].per_step_movements@ && r1[i].total_movement == r2[i].total_movement,
{
    let ps1 = choose|ps: Seq<Seq<usize>>| k_best_paths(ls, r1, k, ps);
    let ps2 = choose|ps: Seq<Seq<usize>>| k_best_paths(ls, r2, k, ps);
    lemma_first_paths_unique(ls, k, r1, ps1, r2, ps2);
    assert forall|i: int| 0 <= i < r1.len() implies (#[trigger] r1[i]).chords@ == r2[i].chords@
        && r1[i].per_step_movements@ == r2[i].per_step_movements@ && r1[i].total_movement == r2[i].total_movement by {
        assert(ps1[i] == ps2[i]);
        assert(is_progression(ls, r1[i]));
        assert(is_progression(ls, r2[i]));
        assert(r1[i].per_step_movements@ =~= r2[i].per_step_movements@);
    }
}

/// Final selections kept in the search order name paths in the order of the results.
proof fn lemma_final_order(ls: Seq<Seq<VoicedChord>>, dv: Seq<Seq<Seq<PathState>>>, n: int, k: nat, x: PathState, y: PathState)
    requires
        dp_ok(ls, dv, n, k),
        n >= 1,
        ordered_at(ls, dv, n - 1, k),
        final_ok(dv, n - 1, x),
        final_ok(dv, n - 1, y),
        st_lt(x, y),
        x.prev_candidate->0 <= usize::MAX,
        y.prev_candidate->0 <= usize::MAX,
    ensures
        path_before(ls, fin_trace(dv, n - 1, x), fin_trace(dv, n - 1, y)),
{
    let last = n - 1;
    lemma_trace(ls, dv, n, k, last, x.prev_candidate->0 as int, x.prev_path->0 as int);
    lemma_trace(ls, dv, n, k, last, y.prev_candidate->0 as int, y.prev_path->0 as int);
}

/// No layer offers the same chord twice.
pub open spec fn distinct_candidates(ls: Seq<Seq<VoicedChord>>) -> bool {
    forall|j: int, a: int, b: int| 0 <= j < ls.len() && 0 <= a < b < ls[j].len() ==> #[trigger] ls[j][a] != #[trigger] ls[j][b]
}

/// The chords a path of candidate indices picks.
pub open spec fn chords_of(ls: Seq<Seq<VoicedChord>>, s: Seq<usize>) -> Seq<VoicedChord> {
    Seq::new(s.len(), |j: int| ls[j][s[j] as int])
}

/// The path of candidate indices a final selection names.
spec fn fin_trace(dv: Seq<Seq<Seq<PathState>>>, last: int, x: PathState) -> Seq<usize> {
    trace(dv, last, x.prev_candidate->0 as int, x.prev_path->0 as int)
}

/// The final selection keeps every complete path, or is full of paths no
/// dearer than it.
proof fn lemma_finals_complete(ls: Seq<Seq<VoicedChord>>, dv: Seq<Seq<Seq<PathState>>>, n: int, k: nat, finals: Seq<PathState>)
    requires
        n >= 1,
        n <= 4_000_000,
        k <= usize::MAX,
        dp_ok(ls, dv, n, k),
        complete_at(ls, dv, n - 1, k),
        forall|x: PathState| #[trigger] finals.contains(x) ==> final_ok(dv, n - 1, x),
        forall|c2: int, pp: int|
            0 <= c2 < dv[n - 1].len() && 0 <= pp < dv[n - 1][c2].len() ==> covers(
                finals,
                #[trigger] offered(dv[n - 1][c2], c2, 0, pp),
                k,
            ),
        forall|c2: int|
            0 <= c2 < dv[n - 1].len() && dv[n - 1][c2].len() == k ==> #[trigger] full_below(
                finals,
                dv[n - 1][c2][k - 1].cost + 0,
                k,
            ),
    ensures
        forall|s: Seq<usize>|
            is_path(ls, s) && s.len() == n ==> (exists|i: int| 0 <= i < finals.len() && #[trigger] fin_trace(dv, n - 1, finals[i]) == s)
                || full_below(finals, #[trigger] path_cost(ls, s), k),
{
    let last = n - 1;
    assert forall|s: Seq<usize>|
        is_path(ls, s) && s.len() == n implies (exists|i: int| 0 <= i < finals.len() && #[trigger] fin_trace(dv, last, finals[i]) == s)
            || full_below(finals, #[trigger] path_cost(ls, s), k) by {
        let c = s[last] as int;
        assert(layer_ok(ls, dv, last, k));
        assert(complete_for(ls, dv, last, k, s));
        if exists|p: int| 0 <= p < dv[last][c].len() && #[trigger] trace(dv, last, c, p) == s {
            let p = choose|p: int| 0 <= p < dv[last][c].len() && #[trigger] trace(dv, last, c, p) == s;
            lemma_trace(ls, dv, n, k, last, c, p);
            let o = offered(dv[last][c], c, 0, p);
            assert(dv[last][c][p].cost <= 1020 * last);
            assert(covers(finals, o, k));
            if finals.contains(o) {
                let i = choose|i: int| 0 <= i < finals.len() && finals[i] == o;
                assert(fin_trace(dv, last, finals[i]) == s);
            }
        } else {
            assert(full_below(dv[last][c], path_cost(ls, s), k));
            assert(full_below(finals, dv[last][c][k - 1].cost + 0, k));
        }
    }
}

/// A progression through the layers follows some path of candidate indices
/// whose cost is its total movement.
proof fn lemma_progression_path(ls: Seq<Seq<VoicedChord>>, h: Harmonization) -> (s: Seq<usize>)
    requires
        is_progression(ls, h),
        ls.len() >= 1,
        forall|j: int| 0 <= j < ls.len() ==> #[trigger] ls[j].len() <= usize::MAX,
    ensures
        is_path(ls, s),
        s.len() == ls.len(),
        chords_of(ls, s) == h.chords@,
        path_cost(ls, s) == h.total_movement,
{
    let s = Seq::new(ls.len(), |j: int| (choose|i: int| 0 <= i < ls[j].len() && ls[j][i] == h.chords@[j]) as usize);
    assert forall|j: int| 0 <= j < ls.len() implies #[trigger] s[j] < ls[j].len() && ls[j][s[j] as int] == h.chords@[j] by {
        assert(ls[j].contains(h.chords@[j]));
        let i = choose|i: int| 0 <= i < ls[j].len() && ls[j][i] == h.chords@[j];
        assert(ls[j].len() <= usize::MAX);
    }
    assert(chords_of(ls, s) =~= h.chords@);
    let moves = h.per_step_movements@;
    assert forall|j: int| 0 <= j < moves.len() implies #[trigger] moves[j] == step_cost(ls, j, s[j] as int, s[j + 1] as int) by {
        assert(ls[j][s[j] as int] == h.chords@[j]);
        assert(ls[j + 1][s[j + 1] as int] == h.chords@[j + 1]);
    }
    lemma_cost_sum(ls, s, moves);
    s
}

/// Different paths of the same length pick different chords when no layer
/// offers a chord twice.
proof fn lemma_chords_differ(ls: Seq<Seq<VoicedChord>>, s1: Seq<usize>, s2: Seq<usize>)
    requires
        distinct_candidates(ls),
        is_path(ls, s1),
        is_path(ls, s2),
        s1.len() == s2.len(),
        s1 != s2,
    ensures
        chords_of(ls, s1) != chords_of(ls, s2),
{
    if chords_of(ls, s1) == chords_of(ls, s2) {
        assert forall|j: int| 0 <= j < s1.len() implies s1[j] == s2[j] by {
            assert(chords_of(ls, s1)[j] == chords_of(ls, s2)[j]);
            assert(s1[j] < ls[j].len() && s2[j] < ls[j].len());
            if s1[j] < s2[j] {
                assert(ls[j][s1[j] as int] != ls[j][s2[j] as int]);
            } else if s1[j] > s2[j] {
                assert(ls[j][s2[j] as int] != ls[j][s1[j] as int]);
            }
        }
        assert(s1 =~= s2);
    }
}

/// `x` names a path of the last layer `last`: its candidate and rank, with its cost.
spec fn final_ok(dv: Seq<Seq<Seq<PathState>>>, last: int, x: PathState) -> bool {
    &&& x.prev_candidate is Some
    &&& x.prev_path is Some
    &&& x.prev_candidate->0 < dv[last].len()
    &&& x.prev_path->0 < dv[last][x.prev_candidate->0 as int].len()
    &&& x.cost == dv[last][x.prev_candidate->0 as int][x.prev_path->0 as int].cost
}

/// The cost of a path is the sum of its per-step movements.
proof fn lemma_cost_sum(ls: Seq<Seq<VoicedChord>>, s: Seq<usize>, moves: Seq<u32>)
    requires
        s.len() >= 1,
        moves.len() + 1 == s.len(),
        forall|j: int| 0 <= j < moves.len() ==> #[trigger] moves[j] == step_cost(ls, j, s[j] as int, s[j + 1] as int),
    ensures
        path_cost(ls, s) == seq_sum(moves),
    decreases s.len(),
{
    if s.len() > 1 {
        let s1 = s.drop_last();
        let m1 = moves.drop_last();
        assert(moves[moves.len() - 1] == step_cost(ls, moves.len() - 1, s[moves.len() - 1] as int, s[moves.len() as int] as int));
        assert forall|j: int| 0 <= j < m1.len() implies #[trigger] m1[j] == step_cost(ls, j, s1[j] as int, s1[j + 1] as int) by {
            assert(m1[j] == moves[j]);
        }
        lemma_cost_sum(ls, s1, m1);
    }
}

/// Rebuild the progression of a final path by following its links back to layer 0.
fn rebuild(layers: &[Vec<VoicedChord>], dp: &Vec<Vec<Vec<PathState>>>, fin: PathState, Ghost(ls): Ghost<Seq<Seq<VoicedChord>>>, Ghost(kk): Ghost<nat>) -> (h: Harmonization)
    requires
        layers@.len() > 0,
        ls == layers_view(layers@),
        dp_ok(ls, dp_view(dp@), layers@.len() as int, kk),
        final_ok(dp_view(dp@), layers@.len() - 1, fin),
    ensures
        is_progression(ls, h),
        h.total_movement == fin.cost,
        h.chords@ == chords_of(ls, fin_trace(dp_view(dp@), layers@.len() - 1, fin)),
{
    let ghost dv = dp_view(dp@);
    let n = layers.len();
    let last = n - 1;
    let mut cidx = match fin.prev_candidate {
        Some(x) => x,
        None => 0,
    };
    let mut pidx = match fin.prev_path {
        Some(x) => x,
        None => 0,
    };
    let ghost s = trace(dv, last as int, cidx as int, pidx as int);
    proof {
        lemma_trace(ls, dv, n as int, kk, last as int, cidx as int, pidx as int);
    }
    let mut rev: Vec<usize> = Vec::new();
    rev.push(cidx);
    assert(s.subrange(0, n as int) =~= s);
    let mut li: usize = last;
    while li > 0
        invariant
            0 <= li <= last,
            last == n - 1,
            n == layers@.len(),
            dp_ok(ls, dv, n as int, kk),
            dv == dp_view(dp@),
            s.len() == n,
            cidx < dv[li as int].len(),
            pidx < dv[li as int][cidx as int].len(),
            trace(dv, li as int, cidx as int, pidx as int) == s.subrange(0, li + 1),
            rev@.len() == last - li + 1,
            forall|i: int| 0 <= i < rev@.len() ==> #[trigger] rev@[i] == s[last - i],
        decreases li,
    {
        proof {
            assert(layer_ok(ls, dv, li as int, kk));
        }
        let st = dp[li][cidx][pidx];
        proof {
            assert(st == dv[li as int][cidx as int][pidx as int]);
            assert(links_back(ls, dv[li - 1], li as int, cidx as int, st));
        }
        let ghost t = trace(dv, li as int, cidx as int, pidx as int);
        cidx = match st.prev_candidate {
            Some(x) => x,
            None => 0,
        };
        pidx = match st.prev_path {
            Some(x) => x,
            None => 0,
        };
        proof {
            assert(t.drop_last() == trace(dv, li - 1, cidx as int, pidx as int));
            assert(s.subrange(0, li as int) =~= s.subrange(0, li + 1).drop_last());
            lemma_trace(ls, dv, n as int, kk, li - 1, cidx as int, pidx as int);
        }
        rev.push(cidx);
        li = li - 1;
    }
    let mut chords: Vec<VoicedChord> = Vec::new();
    let mut j: usize = 0;
    while j < n
        invariant
            0 <= j <= n,
            n == layers@.len(),
            last == n - 1,
            ls == layers_view(layers@),
            rev@.len() == n,
            forall|i: int| 0 <= i < rev@.len() ==> #[trigger] rev@[i] == s[last - i],
            is_path(ls, s),
            s.len() == n,
            chords@.len() == j,
            forall|i: int| 0 <= i < j ==> #[trigger] chords@[i] == ls[i][s[i] as int],
        decreases n - j,
    {
        let ci = rev[last - j];
        proof {
            assert(ci == s[j as int]);
            assert(s[j as int] < ls[j as int].len());
        }
        chords.push(layers[j][ci]);
        j = j + 1;
    }
    let mut moves: Vec<u32> = Vec::new();
    let mut m: usize = 0;
    while m + 1 < n
        invariant
            0 <= m,
            m + 1 <= n || (m == 0 && n == 0),
            n == layers@.len(),
            ls == layers_view(layers@),
            chords@.len() == n,
            s.len() == n,
            forall|i: int| 0 <= i < n ==> #[trigger] chords@[i] == ls[i][s[i] as int],
            moves@.len() == m,
            is_path(ls, s),
            forall|i: int| 0 <= i < m ==> #[trigger] moves@[i] == step_cost(ls, i, s[i] as int, s[i + 1] as int),
        decreases n - m,
    {
        moves.push(min_voiced_chord_l1(&chords[m], &chords[m + 1]));
        m = m + 1;
    }
    proof {
        lemma_cost_sum(ls, s, moves@);
        assert forall|i: int| 0 <= i < ls.len() implies ls[i].contains(#[trigger] chords@[i]) by {
            assert(ls[i][s[i] as int] == chords@[i]);
        }
        assert(chords@ =~= chords_of(ls, s));
    }
    Harmonization { chords, per_step_movements: moves, total_movement: fin.cost }
}

} // verus!

//! Shortest-path distance and eccentricity computations on the base space
//! graph. Distances are reported as `u8`, clamped at 255 (the base space has
//! diameter 8).

use vstd::prelude::*;

use super::base_space::{base_space_wf, enumerates_base, BaseSpace};
use super::bfs::{bfs_vertex_ok, bfs_with_parents};
use super::graph::{sat_u8, shortest};
use super::metric::space_distance;
use super::types::PcChord;

verus! {

/// The distance from vertex `s` to vertex `v`, clamped to `u8`.
pub open spec fn dist_u8(adj: Seq<Seq<usize>>, s: int, v: int) -> Option<u8> {
    match shortest(adj, s, v) {
        Some(d) => Some(sat_u8(d)),
        None => None,
    }
}

/// The clamped distances from `s` to every vertex.
pub open spec fn dists_from(adj: Seq<Seq<usize>>, s: int) -> Seq<Option<u8>> {
    Seq::new(adj.len(), |v: int| dist_u8(adj, s, v))
}

/// The largest known distance among the first `n` entries (0 when none is known).
pub open spec fn max_known(ds: Seq<Option<u8>>, n: int) -> u8
    decreases n,
{
    if n <= 0 {
        0
    } else {
        let m = max_known(ds, n - 1);
        match ds[n - 1] {
            Some(d) => if d > m {
                d
            } else {
                m
            },
            None => m,
        }
    }
}

/// Eccentricity of vertex `s`: its largest distance to a reachable vertex.
pub open spec fn ecc_spec(adj: Seq<Seq<usize>>, s: int) -> u8 {
    max_known(dists_from(adj, s), adj.len() as int)
}

/// The eccentricities of all vertices.
pub open spec fn eccs_spec(adj: Seq<Seq<usize>>) -> Seq<u8> {
    Seq::new(adj.len(), |i: int| ecc_spec(adj, i))
}

/// The largest of the first `n` values (0 for none).
pub open spec fn max_u8(xs: Seq<u8>, n: int) -> u8
    decreases n,
{
    if n <= 0 {
        0
    } else {
        let m = max_u8(xs, n - 1);
        if xs[n - 1] > m {
            xs[n - 1]
        } else {
            m
        }
    }
}

/// The smallest of the first `n` values (0 for none).
pub open spec fn min_u8(xs: Seq<u8>, n: int) -> u8
    decreases n,
{
    if n <= 0 {
        0
    } else if n == 1 {
        xs[0]
    } else {
        let m = min_u8(xs, n - 1);
        if xs[n - 1] < m {
            xs[n - 1]
        } else {
            m
        }
    }
}

/// The chords among the first `n` whose value equals `target`, in order.
pub open spec fn chords_with_value(chords: Seq<PcChord>, xs: Seq<u8>, target: u8, n: int) -> Seq<
    PcChord,
>
    decreases n,
{
    if n <= 0 {
        seq![]
    } else {
        let prev = chords_with_value(chords, xs, target, n - 1);
        if xs[n - 1] == target {
            prev.push(chords[n - 1])
        } else {
            prev
        }
    }
}

/// The reachable chords among the first `n`, paired with their distances, in order.
pub open spec fn reach_list(chords: Seq<PcChord>, ds: Seq<Option<u8>>, n: int) -> Seq<(PcChord, u8)>
    decreases n,
{
    if n <= 0 {
        seq![]
    } else {
        let prev = reach_list(chords, ds, n - 1);
        match ds[n - 1] {
            Some(d) => prev.push((chords[n - 1], d)),
            None => prev,
        }
    }
}

/// The index of a chord of the space (meaningful when the chord belongs to it).
pub open spec fn chord_pos(space: &BaseSpace, c: PcChord) -> int {
    space.chords_view().index_of(c)
}

/// Chords of the base space occur once: equal entries sit at equal indices.
pub proof fn lemma_index_unique(chords: Seq<PcChord>, i: int, j: int)
    requires
        enumerates_base(chords),
        0 <= i < chords.len(),
        0 <= j < chords.len(),
        chords[i] == chords[j],
    ensures
        i == j,
{
    if i < j {
        assert(super::base_space::chord_key(chords[i]) < super::base_space::chord_key(chords[j]));
    } else if j < i {
        assert(super::base_space::chord_key(chords[j]) < super::base_space::chord_key(chords[i]));
    }
}

/// The index found for a chord is its position in the space.
pub(crate) proof fn lemma_found_index(space: &BaseSpace, c: PcChord, i: int)
    requires
        base_space_wf(space.chords_view(), space.adj_view()),
        0 <= i < space.chords_view().len(),
        space.chords_view()[i] == c,
    ensures
        space.chords_view().contains(c),
        chord_pos(space, c) == i,
{
    let chords = space.chords_view();
    assert(chords.contains(c));
    let j = chords.index_of(c);
    lemma_index_unique(chords, i, j);
}

/// Breadth-first distances from the vertex `source` to every vertex.
pub(crate) fn bfs_distances(space: &BaseSpace, source: usize) -> (r: Vec<Option<u8>>)
    requires
        source < space.chords_view().len(),
    ensures
        r@ == dists_from(space.adj_view(), source as int),
{
    let n = space.len();
    let (dist, _parents, _sigma) = bfs_with_parents(space, source);
    let mut out: Vec<Option<u8>> = Vec::new();
    let mut v: usize = 0;
    while v < n
        invariant
            0 <= v <= n,
            n == space.adj_view().len(),
            dist@.len() == n,
            _sigma@.len() == n,
            _parents@.len() == n,
            out@.len() == v,
            forall|w: int|
                0 <= w < n ==> bfs_vertex_ok(
                    space.adj_view(),
                    source as int,
                    w,
                    #[trigger] dist@[w],
                    _sigma@[w],
                    _parents@[w]@,
                ),
            forall|w: int| 0 <= w < v ==> #[trigger] out@[w] == dist_u8(space.adj_view(), source as int, w),
        decreases n - v,
    {
        let dv = match dist[v] {
            Some(k) => {
                if k > 255 {
                    Some(255u8)
                } else {
                    Some(k as u8)
                }
            },
            None => None,
        };
        proof {
            assert(bfs_vertex_ok(space.adj_view(), source as int, v as int, dist@[v as int], _sigma@[v as int], _parents@[v as int]@));
            assert(dv == dist_u8(space.adj_view(), source as int, v as int));
        }
        out.push(dv);
        v = v + 1;
    }
    assert(out@ =~= dists_from(space.adj_view(), source as int));
    out
}

/// The largest known distance in a list of distances (0 when none is known).
fn max_known_exec(ds: &Vec<Option<u8>>) -> (r: u8)
    ensures
        r == max_known(ds@, ds@.len() as int),
{
    let mut m: u8 = 0;
    let mut i: usize = 0;
    while i < ds.len()
        invariant
            0 <= i <= ds@.len(),
            m == max_known(ds@, i as int),
        decreases ds@.len() - i,
    {
        match ds[i] {
            Some(d) => {
                if d > m {
                    m = d;
                }
            },
            None => {},
        }
        i = i + 1;
    }
    m
}

/// Shortest-path distance between two chords in the base space, or `None`
/// if either chord is not in the space or the two are not connected.
pub fn distance(space: &BaseSpace, a: &PcChord, b: &PcChord) -> (r: Option<u8>)
    ensures
        r == space_distance(space, *a, *b),
{
    let n = space.len();
    let ai = match space.chord_index(a) {
        Some(i) => i,
        None => return None,
    };
    let bi = match space.chord_index(b) {
        Some(i) => i,
        None => return None,
    };
    proof {
        lemma_found_index(space, *a, ai as int);
        lemma_found_index(space, *b, bi as int);
    }
    let dists = bfs_distances(space, ai);
    dists[bi]
}

/// Shortest-path distances from one chord to every reachable chord of the
/// space, in enumeration order; empty if the chord is not in the space.
pub fn all_distances_from(space: &BaseSpace, a: &PcChord) -> (r: Vec<(PcChord, u8)>)
    ensures
        r@ == (if space.chords_view().contains(*a) {
            reach_list(
                space.chords_view(),
                dists_from(space.adj_view(), chord_pos(space, *a)),
                space.chords_view().len() as int,
            )
        } else {
            seq![]
        }),
{
    let mut result: Vec<(PcChord, u8)> = Vec::new();
    let n = space.len();
    match space.chord_index(a) {
        Some(ai) => {
            proof {
                lemma_found_index(space, *a, ai as int);
            }
            let dists = bfs_distances(space, ai);
            let chords = space.chords();
            let ghost ds = dists@;
            let mut i: usize = 0;
            while i < n
                invariant
                    0 <= i <= n,
                    n == chords@.len(),
                    chords@ == space.chords_view(),
                    ds == dists@,
                    dists@.len() == n,
                    result@ == reach_list(chords@, ds, i as int),
                decreases n - i,
            {
                match dists[i] {
                    Some(d) => {
                        result.push((chords[i], d));
                    },
                    None => {},
                }
                i = i + 1;
            }
        },
        None => {},
    }
    result
}

/// Eccentricity of a chord: its largest shortest-path distance to any chord
/// of the space; `None` if the chord is not in the space.
pub fn eccentricity(space: &BaseSpace, a: &PcChord) -> (r: Option<u8>)
    ensures
        r == (if space.chords_view().contains(*a) {
            Some(ecc_spec(space.adj_view(), chord_pos(space, *a)))
        } else {
            None
        }),
{
    let n = space.len();
    let ai = match space.chord_index(a) {
        Some(i) => i,
        None => return None,
    };
    proof {
        lemma_found_index(space, *a, ai as int);
    }
    let dists = bfs_distances(space, ai);
    Some(max_known_exec(&dists))
}

/// The eccentricities of all chords of the space, in enumeration order.
fn all_eccentricities(space: &BaseSpace) -> (r: Vec<u8>)
    ensures
        r@ == eccs_spec(space.adj_view()),
{
    let n = space.len();
    let mut eccs: Vec<u8> = Vec::new();
    let mut i: usize = 0;
    while i < n
        invariant
            0 <= i <= n,
            n == space.adj_view().len(),
            n == space.chords_view().len(),
            eccs@.len() == i,
            forall|k: int| 0 <= k < i ==> #[trigger] eccs@[k] == ecc_spec(space.adj_view(), k),
        decreases n - i,
    {
        let dists = bfs_distances(space, i);
        eccs.push(max_known_exec(&dists));
        i = i + 1;
    }
    assert(eccs@ =~= eccs_spec(space.adj_view()));
    eccs
}

/// Diameter of the base space: the largest eccentricity of any chord.
pub fn diameter(space: &BaseSpace) -> (r: u8)
    ensures
        r == max_u8(eccs_spec(space.adj_view()), space.adj_view().len() as int),
{
    let eccs = all_eccentricities(space);
    let mut max_ecc: u8 = 0;
    let mut i: usize = 0;
    while i < eccs.len()
        invariant
            0 <= i <= eccs@.len(),
            max_ecc == max_u8(eccs@, i as int),
        decreases eccs@.len() - i,
    {
        if eccs[i] > max_ecc {
            max_ecc = eccs[i];
        }
        i = i + 1;
    }
    max_ecc
}

/// Center of the base space: the chords whose eccentricity equals the
/// smallest eccentricity (the radius), in enumeration order.
pub fn center(space: &BaseSpace) -> (r: Vec<PcChord>)
    ensures
        r@ == chords_with_value(
            space.chords_view(),
            eccs_spec(space.adj_view()),
            min_u8(eccs_spec(space.adj_view()), space.adj_view().len() as int),
            space.chords_view().len() as int,
        ),
{
    let eccs = all_eccentricities(space);
    let n = eccs.len();
    let mut min_ecc: u8 = 0;
    let mut i: usize = 0;
    while i < n
        invariant
            0 <= i <= n,
            n == eccs@.len(),
            min_ecc == min_u8(eccs@, i as int),
        decreases n - i,
    {
        if i == 0 || eccs[i] < min_ecc {
            min_ecc = eccs[i];
        }
        i = i + 1;
    }
    let chords = space.chords();
    let mut result: Vec<PcChord> = Vec::new();
    let mut j: usize = 0;
    while j < n
        invariant
            0 <= j <= n,
            n == eccs@.len(),
            n == chords@.len(),
            result@ == chords_with_value(chords@, eccs@, min_ecc, j as int),
        decreases n - j,
    {
        if eccs[j] == min_ecc {
            result.push(chords[j]);
        }
        j = j + 1;
    }
    result
}

} // verus!

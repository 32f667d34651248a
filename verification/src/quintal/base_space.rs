//! The base space B: every four-note pitch-class set that admits a quintal
//! stacking (all forward intervals in {6, 7, 8}), together with its
//! voice-leading adjacency graph.
//!
//! Two chords are adjacent when they share three pitch classes and the
//! remaining pitch classes lie a semitone apart (a single voice moves by a
//! semitone).

use vstd::prelude::*;

use super::types::{fwd, strictly_ascending4, PcChord};

verus! {

/// The chord contains pitch class `x`.
pub open spec fn has_pc(c: PcChord, x: u8) -> bool {
    c.pcs[0] == x || c.pcs[1] == x || c.pcs[2] == x || c.pcs[3] == x
}

/// How many pitch classes of `a` occur in `b`.
pub open spec fn shared_count(a: PcChord, b: PcChord) -> int {
    (if has_pc(b, a.pcs[0]) { 1int } else { 0int }) + (if has_pc(b, a.pcs[1]) {
        1int
    } else {
        0int
    }) + (if has_pc(b, a.pcs[2]) { 1int } else { 0int }) + (if has_pc(b, a.pcs[3]) {
        1int
    } else {
        0int
    })
}

/// Two pitch classes lie a semitone apart (mod 12).
pub open spec fn semitone_apart(x: u8, y: u8) -> bool {
    fwd(x, y) == 1 || fwd(y, x) == 1
}

/// Voice-leading adjacency: the chords share exactly three pitch classes
/// and the two remaining pitch classes are a semitone apart.
pub open spec fn adjacent_spec(a: PcChord, b: PcChord) -> bool {
    &&& shared_count(a, b) == 3
    &&& shared_count(b, a) == 3
    &&& exists|i: int, j: int|
        0 <= i < 4 && 0 <= j < 4 && !has_pc(b, #[trigger] a.pcs[i]) && !has_pc(
            a,
            #[trigger] b.pcs[j],
        ) && semitone_apart(a.pcs[i], b.pcs[j])
}

/// A member of the base space: a well-formed chord with a legal quintal stacking.
pub open spec fn chord_in_base(c: PcChord) -> bool {
    c.wf() && c.legal()
}

/// Position of a chord in the enumeration order (lexicographic on pitch classes).
pub open spec fn chord_key(c: PcChord) -> int {
    c.pcs[0] * 1728 + c.pcs[1] * 144 + c.pcs[2] * 12 + c.pcs[3]
}

/// The chords of the base space, in enumeration order, without repetition.
pub open spec fn enumerates_base(chords: Seq<PcChord>) -> bool {
    &&& forall|i: int, j: int|
        0 <= i < j < chords.len() ==> chord_key(#[trigger] chords[i]) < chord_key(
            #[trigger] chords[j],
        )
    &&& forall|i: int| 0 <= i < chords.len() ==> chord_in_base(#[trigger] chords[i])
    &&& forall|c: PcChord| chord_in_base(c) ==> #[trigger] chords.contains(c)
}

/// The first `m` entries of two enumerations of the base space agree.
proof fn lemma_enumeration_prefix(a: Seq<PcChord>, b: Seq<PcChord>, m: int)
    requires
        enumerates_base(a),
        enumerates_base(b),
        0 <= m <= a.len(),
        m <= b.len(),
    ensures
        forall|i: int| 0 <= i < m ==> #[trigger] a[i] == b[i],
    decreases m,
{
    if m > 0 {
        lemma_enumeration_prefix(a, b, m - 1);
        let i = m - 1;
        if a[i] != b[i] {
            if chord_key(a[i]) < chord_key(b[i]) {
                assert(chord_in_base(a[i]));
                assert(b.contains(a[i]));
                let j = choose|j: int| 0 <= j < b.len() && b[j] == a[i];
                if j < i {
                    assert(a[j] == b[j]);
                    assert(chord_key(a[j]) < chord_key(a[i]));
                } else if j > i {
                    assert(chord_key(b[i]) < chord_key(b[j]));
                }
            } else {
                assert(chord_in_base(b[i]));
                assert(a.contains(b[i]));
                let j = choose|j: int| 0 <= j < a.len() && a[j] == b[i];
                if j < i {
                    assert(a[j] == b[j]);
                    assert(chord_key(b[j]) < chord_key(b[i]));
                } else if j > i {
                    assert(chord_key(a[i]) < chord_key(a[j]));
                }
            }
        }
    }
}

/// **The enumeration of the base space is unique**: two sequences that both
/// list every base chord, without repetition, in enumeration order are equal.
pub proof fn lemma_enumeration_unique(a: Seq<PcChord>, b: Seq<PcChord>)
    requires
        enumerates_base(a),
        enumerates_base(b),
    ensures
        a == b,
{
    if a.len() <= b.len() {
        lemma_enumeration_prefix(a, b, a.len() as int);
        if a.len() < b.len() {
            let x = b[a.len() as int];
            assert(chord_in_base(x));
            assert(a.contains(x));
            let j = choose|j: int| 0 <= j < a.len() && a[j] == x;
            assert(a[j] == b[j]);
            assert(chord_key(b[j]) < chord_key(b[a.len() as int]));
        }
    } else {
        lemma_enumeration_prefix(b, a, b.len() as int);
        let x = a[b.len() as int];
        assert(chord_in_base(x));
        assert(b.contains(x));
        let j = choose|j: int| 0 <= j < b.len() && b[j] == x;
        assert(b[j] == a[j]);
        assert(chord_key(a[j]) < chord_key(a[b.len() as int]));
    }
    assert(a =~= b);
}

/// `row` lists, in increasing order, exactly the indices of the chords adjacent to `c`.
pub open spec fn is_neighbor_row(chords: Seq<PcChord>, c: PcChord, row: Seq<usize>) -> bool {
    &&& forall|a: int, b: int| 0 <= a < b < row.len() ==> row[a] < row[b]
    &&& forall|a: int| 0 <= a < row.len() ==> row[a] < chords.len()
    &&& forall|x: int|
        0 <= x < chords.len() ==> (row.contains(x as usize) <==> adjacent_spec(
            c,
            #[trigger] chords[x],
        ))
}

/// A well-formed base space view: all base chords in order and their adjacency rows.
pub open spec fn base_space_wf(chords: Seq<PcChord>, adj: Seq<Seq<usize>>) -> bool {
    &&& enumerates_base(chords)
    &&& adj.len() == chords.len()
    &&& forall|i: int| 0 <= i < chords.len() ==> is_neighbor_row(chords, chords[i], #[trigger] adj[i])
}

/// The quintal base space: all legal quintal pitch-class chords and their
/// voice-leading adjacency graph.
pub struct BaseSpace {
    chords: Vec<PcChord>,
    adjacency: Vec<Vec<usize>>,
}

/// Tests the voice-leading adjacency of two chords.
pub fn is_adjacent(a: &PcChord, b: &PcChord) -> (r: bool)
    requires
        a.in_range(),
        b.in_range(),
    ensures
        r == adjacent_spec(*a, *b),
{
    let ca = shared(a, b);
    let cb = shared(b, a);
    if ca != 3 || cb != 3 {
        return false;
    }
    let i = first_missing(a, b);
    let j = first_missing(b, a);
    let x = a.pcs[i];
    let y = b.pcs[j];
    let up = (y as u16 + 12 - x as u16) % 12;
    let down = (x as u16 + 12 - y as u16) % 12;
    let r = up == 1 || down == 1;
    proof {
        assert(semitone_apart(x, y) == r);
        if !r {
            assert forall|i2: int, j2: int|
                0 <= i2 < 4 && 0 <= j2 < 4 && !has_pc(*b, #[trigger] a.pcs[i2]) && !has_pc(
                    *a,
                    #[trigger] b.pcs[j2],
                ) implies !semitone_apart(a.pcs[i2], b.pcs[j2]) by {
                assert(i2 == i);
                assert(j2 == j);
            }
        }
    }
    r
}

fn contains_pc(c: &PcChord, x: u8) -> (r: bool)
    ensures
        r == has_pc(*c, x),
{
    c.pcs[0] == x || c.pcs[1] == x || c.pcs[2] == x || c.pcs[3] == x
}

fn shared(a: &PcChord, b: &PcChord) -> (r: u8)
    ensures
        r == shared_count(*a, *b),
{
    let mut n: u8 = 0;
    if contains_pc(b, a.pcs[0]) {
        n = n + 1;
    }
    if contains_pc(b, a.pcs[1]) {
        n = n + 1;
    }
    if contains_pc(b, a.pcs[2]) {
        n = n + 1;
    }
    if contains_pc(b, a.pcs[3]) {
        n = n + 1;
    }
    n
}

/// The only pitch class of `a` missing from `b`, when exactly three are shared.
fn first_missing(a: &PcChord, b: &PcChord) -> (i: usize)
    requires
        shared_count(*a, *b) == 3,
    ensures
        i < 4,
        !has_pc(*b, a.pcs[i as int]),
        forall|k: int| 0 <= k < 4 && k != i ==> has_pc(*b, #[trigger] a.pcs[k]),
{
    if !contains_pc(b, a.pcs[0]) {
        0
    } else if !contains_pc(b, a.pcs[1]) {
        1
    } else if !contains_pc(b, a.pcs[2]) {
        2
    } else {
        3
    }
}

impl BaseSpace {
    #[verifier::type_invariant]
    spec fn inv(self) -> bool {
        &&& base_space_wf(self.chords@, self.adj_view())
    }

    /// The chords of the space in enumeration order.
    pub closed spec fn chords_view(&self) -> Seq<PcChord> {
        self.chords@
    }

    /// The adjacency rows of the space.
    pub closed spec fn adj_view(&self) -> Seq<Seq<usize>> {
        Seq::new(self.adjacency@.len(), |i: int| self.adjacency@[i]@)
    }

    /// The chords and adjacency rows of the space fit in memory.
    pub proof fn lemma_views_bounded(&self)
        ensures
            self.chords_view().len() <= usize::MAX,
            self.adj_view().len() <= usize::MAX,
    {
        assert(self.chords@.len() == self.chords.len());
        assert(self.adjacency@.len() == self.adjacency.len());
    }

    /// Build the 228-chord base space: every legal quintal pitch-class chord in
    /// lexicographic order of its pitch classes, with its adjacency rows.
    pub fn new() -> (r: Self)
        ensures
            base_space_wf(r.chords_view(), r.adj_view()),
    {
        let chords = enumerate_all();
        let n = chords.len();
        let mut adjacency: Vec<Vec<usize>> = Vec::new();
        let mut i: usize = 0;
        while i < n
            invariant
                0 <= i <= n,
                n == chords@.len(),
                enumerates_base(chords@),
                adjacency@.len() == i,
                forall|k: int|
                    0 <= k < i ==> is_neighbor_row(chords@, chords@[k], #[trigger] adjacency@[k]@),
            decreases n - i,
        {
            let row = neighbor_row(&chords, i);
            adjacency.push(row);
            i = i + 1;
        }
        let r = BaseSpace { chords, adjacency };
        assert(base_space_wf(r.chords@, r.adj_view()));
        r
    }

    /// Number of chords in the space.
    pub fn len(&self) -> (r: usize)
        ensures
            r == self.chords_view().len(),
            base_space_wf(self.chords_view(), self.adj_view()),
    {
        proof {
            use_type_invariant(self);
        }
        self.chords.len()
    }

    /// The space holds no chords.
    pub fn is_empty(&self) -> (r: bool)
        ensures
            r == (self.chords_view().len() == 0),
    {
        self.chords.len() == 0
    }

    /// All chords of the space in enumeration order.
    pub fn chords(&self) -> (r: &[PcChord])
        ensures
            r@ == self.chords_view(),
            base_space_wf(self.chords_view(), self.adj_view()),
    {
        proof {
            use_type_invariant(self);
        }
        self.chords.as_slice()
    }

    /// Index of a chord in the enumeration, if the chord belongs to the space.
    pub fn chord_index(&self, c: &PcChord) -> (r: Option<usize>)
        ensures
            match r {
                Some(i) => i < self.chords_view().len() && self.chords_view()[i as int] == *c,
                None => !self.chords_view().contains(*c),
            },
    {
        let mut i: usize = 0;
        while i < self.chords.len()
            invariant
                0 <= i <= self.chords@.len(),
                forall|k: int| 0 <= k < i ==> self.chords@[k] != *c,
            decreases self.chords@.len() - i,
        {
            if self.chords[i] == *c {
                return Some(i);
            }
            i = i + 1;
        }
        None
    }

    /// Indices of the neighbors of the chord at index `i`.
    pub fn neighbors_by_index(&self, i: usize) -> (r: &[usize])
        requires
            i < self.chords_view().len(),
        ensures
            r@ == self.adj_view()[i as int],
    {
        proof {
            use_type_invariant(self);
        }
        self.adjacency[i].as_slice()
    }

    /// Indices of the neighbors of a chord, if the chord belongs to the space.
    pub fn neighbors(&self, c: &PcChord) -> (r: Option<&Vec<usize>>)
        ensures
            match r {
                Some(row) => exists|i: int|
                    0 <= i < self.chords_view().len() && self.chords_view()[i] == *c && row@
                        == self.adj_view()[i],
                None => !self.chords_view().contains(*c),
            },
    {
        proof {
            use_type_invariant(self);
        }
        match self.chord_index(c) {
            Some(i) => Some(&self.adjacency[i]),
            None => None,
        }
    }

    /// Number of neighbors of a chord, if the chord belongs to the space.
    pub fn degree(&self, c: &PcChord) -> (r: Option<usize>)
        ensures
            match r {
                Some(d) => exists|i: int|
                    0 <= i < self.chords_view().len() && self.chords_view()[i] == *c && d
                        == self.adj_view()[i].len(),
                None => !self.chords_view().contains(*c),
            },
    {
        match self.neighbors(c) {
            Some(row) => Some(row.len()),
            None => None,
        }
    }
}

/// The chord with enumeration key `k`.
pub open spec fn chord_of_key(k: int) -> PcChord {
    PcChord { pcs: [(k / 1728) as u8, ((k / 144) % 12) as u8, ((k / 12) % 12) as u8, (k % 12) as u8] }
}

proof fn lemma_key_roundtrip(c: PcChord)
    requires
        c.in_range(),
    ensures
        0 <= chord_key(c) < 20736,
        chord_of_key(chord_key(c)) == c,
{
    let k = chord_key(c);
    let p = c.pcs;
    assert(k / 1728 == p[0]) by (nonlinear_arith)
        requires
            k == p[0] * 1728 + p[1] * 144 + p[2] * 12 + p[3],
            0 <= p[1] <= 11,
            0 <= p[2] <= 11,
            0 <= p[3] <= 11,
    ;
    assert(k / 144 == p[0] * 12 + p[1]) by (nonlinear_arith)
        requires
            k == p[0] * 1728 + p[1] * 144 + p[2] * 12 + p[3],
            0 <= p[2] <= 11,
            0 <= p[3] <= 11,
    ;
    assert(k / 12 == p[0] * 144 + p[1] * 12 + p[2]) by (nonlinear_arith)
        requires
            k == p[0] * 1728 + p[1] * 144 + p[2] * 12 + p[3],
            0 <= p[3] <= 11,
    ;
    assert((p[0] * 12 + p[1]) % 12 == p[1]) by (nonlinear_arith)
        requires
            0 <= p[1] <= 11,
            p[0] >= 0,
    ;
    assert((p[0] * 144 + p[1] * 12 + p[2]) % 12 == p[2]) by (nonlinear_arith)
        requires
            0 <= p[2] <= 11,
            p[0] >= 0,
            p[1] >= 0,
    ;
    assert(k % 12 == p[3]) by (nonlinear_arith)
        requires
            k == p[0] * 1728 + p[1] * 144 + p[2] * 12 + p[3],
            0 <= p[3] <= 11,
            p[0] >= 0,
            p[1] >= 0,
            p[2] >= 0,
    ;
    assert(chord_of_key(k).pcs =~= p);
}

proof fn lemma_decoded_in_range(k: int)
    requires
        0 <= k < 20736,
    ensures
        chord_of_key(k).in_range(),
        chord_key(chord_of_key(k)) == k,
{
    let a = k / 1728;
    let b = (k / 144) % 12;
    let c = (k / 12) % 12;
    let d = k % 12;
    assert(0 <= a <= 11);
    assert(k == a * 1728 + b * 144 + c * 12 + d) by (nonlinear_arith)
        requires
            a == k / 1728,
            b == (k / 144) % 12,
            c == (k / 12) % 12,
            d == k % 12,
            k >= 0,
    {
        assert(k == 12 * (k / 12) + k % 12);
        assert(k / 12 == 12 * (k / 144) + (k / 12) % 12) by {
            assert(k / 144 == (k / 12) / 12);
        }
        assert(k / 144 == 12 * (k / 1728) + (k / 144) % 12) by {
            assert(k / 1728 == (k / 144) / 12);
        }
    }
}

/// Enumerate every legal quintal pitch-class chord in lexicographic order.
pub fn enumerate_all() -> (r: Vec<PcChord>)
    ensures
        enumerates_base(r@),
{
    let mut chords: Vec<PcChord> = Vec::new();
    let mut k: u32 = 0;
    while k < 20736
        invariant
            0 <= k <= 20736,
            forall|i: int, j: int|
                0 <= i < j < chords@.len() ==> chord_key(#[trigger] chords@[i]) < chord_key(
                    #[trigger] chords@[j],
                ),
            forall|i: int|
                0 <= i < chords@.len() ==> chord_in_base(#[trigger] chords@[i]) && chord_key(
                    chords@[i],
                ) < k,
            forall|c: PcChord|
                chord_in_base(c) && chord_key(c) < k ==> #[trigger] chords@.contains(c),
        decreases 20736 - k,
    {
        let a = (k / 1728) as u8;
        let b = ((k / 144) % 12) as u8;
        let c = ((k / 12) % 12) as u8;
        let d = (k % 12) as u8;
        let cand = PcChord { pcs: [a, b, c, d] };
        proof {
            lemma_decoded_in_range(k as int);
            assert(cand == chord_of_key(k as int));
        }
        let ghost old_chords = chords@;
        if a < b && b < c && c < d && cand.is_legal() {
            chords.push(cand);
            proof {
                assert(chords@[chords@.len() - 1] == cand);
            }
        }
        proof {
            assert forall|x: PcChord| chord_in_base(x) && chord_key(x) < k + 1 implies
                #[trigger] chords@.contains(x) by {
                if chord_key(x) == k {
                    lemma_key_roundtrip(x);
                    assert(x == cand);
                    assert(chords@[chords@.len() - 1] == cand);
                } else {
                    assert(old_chords.contains(x));
                    let w = choose|w: int| 0 <= w < old_chords.len() && old_chords[w] == x;
                    assert(chords@[w] == x);
                }
            }
        }
        k = k + 1;
    }
    chords
}

/// Indices, in increasing order, of the chords adjacent to `chords[i]`.
fn neighbor_row(chords: &Vec<PcChord>, i: usize) -> (row: Vec<usize>)
    requires
        enumerates_base(chords@),
        i < chords@.len(),
    ensures
        is_neighbor_row(chords@, chords@[i as int], row@),
{
    let mut row: Vec<usize> = Vec::new();
    let mut j: usize = 0;
    let n = chords.len();
    assert(chord_in_base(chords@[i as int]));
    while j < n
        invariant
            0 <= j <= n,
            n == chords@.len(),
            i < n,
            enumerates_base(chords@),
            forall|a: int, b: int| 0 <= a < b < row@.len() ==> row@[a] < row@[b],
            forall|a: int| 0 <= a < row@.len() ==> row@[a] < j,
            forall|x: int|
                0 <= x < n ==> (row@.contains(x as usize) <==> (x < j && adjacent_spec(
                    chords@[i as int],
                    #[trigger] chords@[x],
                ))),
        decreases n - j,
    {
        assert(chord_in_base(chords@[j as int]));
        let ghost old_row = row@;
        let adj = is_adjacent(&chords[i], &chords[j]);
        if adj {
            row.push(j);
        }
        proof {
            assert forall|x: int| 0 <= x < n implies (row@.contains(x as usize) <==> (x < j + 1
                && adjacent_spec(chords@[i as int], #[trigger] chords@[x]))) by {
                if row@.contains(x as usize) {
                    let w = choose|w: int| 0 <= w < row@.len() && row@[w] == x as usize;
                    if w < old_row.len() {
                        assert(old_row[w] == x as usize);
                        assert(old_row.contains(x as usize));
                    }
                }
                if x < j + 1 && adjacent_spec(chords@[i as int], chords@[x]) {
                    if x < j {
                        assert(old_row.contains(x as usize));
                        let w = choose|w: int| 0 <= w < old_row.len() && old_row[w] == x as usize;
                        assert(row@[w] == x as usize);
                    } else {
                        assert(row@[row@.len() - 1] == x as usize);
                    }
                }
            }
        }
        j = j + 1;
    }
    row
}

} // verus!

use vstd::prelude::*;

use super::error::QuintalError;

verus! {

// ───────────────────────── four-element array helpers ─────────────────────────

/// Number of times `x` occurs in the four-element array `a`.
pub open spec fn count4<T>(a: [T; 4], x: T) -> int {
    (if a[0] == x { 1int } else { 0int }) + (if a[1] == x { 1int } else { 0int }) + (if a[2]
        == x {
        1int
    } else {
        0int
    }) + (if a[3] == x { 1int } else { 0int })
}

/// `a` and `b` hold the same values with the same multiplicities.
pub open spec fn same_elements4<T>(a: [T; 4], b: [T; 4]) -> bool {
    forall|x: T| #![trigger count4(a, x)] #![trigger count4(b, x)] count4(a, x) == count4(b, x)
}

/// The array is sorted in non-decreasing order.
pub open spec fn ascending4(a: [u8; 4]) -> bool {
    a[0] <= a[1] && a[1] <= a[2] && a[2] <= a[3]
}

/// The array is sorted in strictly increasing order.
pub open spec fn strictly_ascending4(a: [u8; 4]) -> bool {
    a[0] < a[1] && a[1] < a[2] && a[2] < a[3]
}

/// The four entries are pairwise distinct.
pub open spec fn distinct4(a: [u8; 4]) -> bool {
    a[0] != a[1] && a[0] != a[2] && a[0] != a[3] && a[1] != a[2] && a[1] != a[3] && a[2] != a[3]
}

/// `dst` is the ascending rearrangement of `src`.
pub open spec fn is_sorting_of(src: [u8; 4], dst: [u8; 4]) -> bool {
    ascending4(dst) && same_elements4(src, dst)
}

/// Each entry reduced modulo 12.
pub open spec fn mod12_4(a: [u8; 4]) -> [u8; 4] {
    [(a[0] % 12) as u8, (a[1] % 12) as u8, (a[2] % 12) as u8, (a[3] % 12) as u8]
}

/// The first entry above 11, if any.
pub open spec fn first_out_of_range4(a: [u8; 4]) -> Option<u8> {
    if a[0] > 11 {
        Some(a[0])
    } else if a[1] > 11 {
        Some(a[1])
    } else if a[2] > 11 {
        Some(a[2])
    } else if a[3] > 11 {
        Some(a[3])
    } else {
        None
    }
}

/// The ascending rearrangement of `a`.
pub open spec fn sorted4(a: [u8; 4]) -> [u8; 4] {
    choose|s: [u8; 4]| is_sorting_of(a, s)
}

spec fn min_u8(x: u8, y: u8) -> u8 {
    if x <= y {
        x
    } else {
        y
    }
}

spec fn max_u8(x: u8, y: u8) -> u8 {
    if x <= y {
        y
    } else {
        x
    }
}

/// A sorting network on four values, used as a witness that every array has
/// an ascending rearrangement.
spec fn network_sort4(a: [u8; 4]) -> [u8; 4] {
    let x0 = min_u8(a[0], a[1]);
    let x1 = max_u8(a[0], a[1]);
    let x2 = min_u8(a[2], a[3]);
    let x3 = max_u8(a[2], a[3]);
    let y0 = min_u8(x0, x2);
    let y2 = max_u8(x0, x2);
    let y1 = min_u8(x1, x3);
    let y3 = max_u8(x1, x3);
    [y0, min_u8(y1, y2), max_u8(y1, y2), y3]
}

/// `sorted4(a)` is the unique ascending rearrangement of `a`.
pub proof fn lemma_sorted4(a: [u8; 4])
    ensures
        is_sorting_of(a, sorted4(a)),
        forall|s: [u8; 4]| is_sorting_of(a, s) ==> s == sorted4(a),
{
    let w = network_sort4(a);
    assert(is_sorting_of(a, w)) by {
        assert forall|x: u8| #![auto] count4(a, x) == count4(w, x) by {}
    }
    assert forall|s: [u8; 4]| is_sorting_of(a, s) implies s == sorted4(a) by {
        lemma_sorting_unique(a, s, sorted4(a));
    }
}

/// Two ascending arrangements of the same values are equal.
pub proof fn lemma_sorting_unique(src: [u8; 4], x: [u8; 4], y: [u8; 4])
    requires
        is_sorting_of(src, x),
        is_sorting_of(src, y),
    ensures
        x == y,
{
    assert(count4(src, x[0]) == count4(x, x[0]));
    assert(count4(src, y[0]) == count4(y, y[0]));
    assert(count4(src, x[0]) == count4(y, x[0]));
    assert(count4(src, y[0]) == count4(x, y[0]));
    assert(x[0] == y[0]);
    assert(count4(src, x[3]) == count4(y, x[3]));
    assert(count4(src, y[3]) == count4(x, y[3]));
    assert(x[3] == y[3]);
    assert(count4(src, x[1]) == count4(y, x[1]));
    assert(count4(src, y[1]) == count4(x, y[1]));
    assert(count4(src, x[2]) == count4(y, x[2]));
    assert(count4(src, y[2]) == count4(x, y[2]));
    assert(x[1] == y[1]);
    assert(x[2] == y[2]);
    assert(x =~= y);
}

/// Counts are preserved by a rearrangement: the values that occur are the same.
pub proof fn lemma_same_elements_membership(a: [u8; 4], b: [u8; 4], i: int)
    requires
        same_elements4(a, b),
        0 <= i < 4,
    ensures
        b[0] == a[i] || b[1] == a[i] || b[2] == a[i] || b[3] == a[i],
{
    assert(count4(a, a[i]) == count4(b, a[i]));
}

fn compare_swap(a: &mut [u8; 4], i: usize, j: usize)
    requires
        i < j < 4,
    ensures
        final(a)[i as int] == if old(a)[i as int] <= old(a)[j as int] {
            old(a)[i as int]
        } else {
            old(a)[j as int]
        },
        final(a)[j as int] == if old(a)[i as int] <= old(a)[j as int] {
            old(a)[j as int]
        } else {
            old(a)[i as int]
        },
        forall|k: int| 0 <= k < 4 && k != i && k != j ==> final(a)[k] == old(a)[k],
        same_elements4(*old(a), *final(a)),
{
    let x = a[i];
    let y = a[j];
    if x > y {
        a[i] = y;
        a[j] = x;
    }
}

/// Sort four values in ascending order.
pub fn sort4(a: [u8; 4]) -> (r: [u8; 4])
    ensures
        is_sorting_of(a, r),
        r == sorted4(a),
{
    let mut r = a;
    compare_swap(&mut r, 0, 1);
    compare_swap(&mut r, 2, 3);
    compare_swap(&mut r, 0, 2);
    compare_swap(&mut r, 1, 3);
    compare_swap(&mut r, 1, 2);
    proof {
        lemma_sorted4(a);
    }
    r
}

// ───────────────────────── permutation enumeration ─────────────────────────

/// The `i`-th element (0-based) of `{0, 1, 2, 3}` with `a` removed.
pub open spec fn skip1(a: int, i: int) -> int {
    if i < a {
        i
    } else {
        i + 1
    }
}

/// The `i`-th element (0-based) of `{0, 1, 2, 3}` with `a` and `b` removed.
pub open spec fn skip2(a: int, b: int, i: int) -> int {
    let lo = if a < b {
        a
    } else {
        b
    };
    let hi = if a < b {
        b
    } else {
        a
    };
    let c1 = if i >= lo {
        i + 1
    } else {
        i
    };
    if c1 >= hi {
        c1 + 1
    } else {
        c1
    }
}

/// The `k`-th permutation of `[0, 1, 2, 3]` in lexicographic order (`0 <= k < 24`).
pub open spec fn perm4(k: int) -> (int, int, int, int) {
    let a = k / 6;
    let r = k % 6;
    let b = skip1(a, r / 2);
    let c = skip2(a, b, r % 2);
    (a, b, c, 6 - a - b - c)
}

/// The `k`-th permutation of `[0, 1, 2, 3]` in lexicographic order.
pub fn perm_at(k: usize) -> (r: (usize, usize, usize, usize))
    requires
        k < 24,
    ensures
        (r.0 as int, r.1 as int, r.2 as int, r.3 as int) == perm4(k as int),
        r.0 < 4 && r.1 < 4 && r.2 < 4 && r.3 < 4,
{
    let a = k / 6;
    let rem = k % 6;
    let ri = rem / 2;
    let b = if ri < a {
        ri
    } else {
        ri + 1
    };
    let lo = if a < b {
        a
    } else {
        b
    };
    let hi = if a < b {
        b
    } else {
        a
    };
    let mut c = rem % 2;
    if c >= lo {
        c = c + 1;
    }
    if c >= hi {
        c = c + 1;
    }
    let d = 6 - a - b - c;
    assert(perm4(k as int) == (a as int, b as int, c as int, d as int));
    (a, b, c, d)
}

/// Forward interval from pitch class `x` up to pitch class `y`, modulo 12.
pub open spec fn fwd(x: u8, y: u8) -> int {
    (y + 12 - x) % 12
}

/// The pitch classes of `pcs` read in the order of the `k`-th permutation.
pub open spec fn ordering_at(pcs: [u8; 4], k: int) -> [u8; 4] {
    let (a, b, c, d) = perm4(k);
    [pcs[a], pcs[b], pcs[c], pcs[d]]
}

/// The three forward intervals of an ordering of four pitch classes.
pub open spec fn walk_structure(w: [u8; 4]) -> IntervalStructure {
    IntervalStructure(fwd(w[0], w[1]) as u8, fwd(w[1], w[2]) as u8, fwd(w[2], w[3]) as u8)
}

/// Index of the first permutation, from `k` on, whose walk has a legal
/// quintal interval structure.
pub open spec fn first_legal_from(pcs: [u8; 4], k: int) -> Option<int>
    decreases 24 - k,
{
    if k >= 24 || k < 0 {
        None
    } else if walk_structure(ordering_at(pcs, k)).legal_spec() {
        Some(k)
    } else {
        first_legal_from(pcs, k + 1)
    }
}

/// The legal quintal stacking of a chord: the first ordering (in
/// lexicographic permutation order) whose forward intervals all lie in {6, 7, 8}.
pub open spec fn stacking_spec(pcs: [u8; 4]) -> Option<([u8; 4], IntervalStructure)> {
    match first_legal_from(pcs, 0) {
        Some(k) => Some((ordering_at(pcs, k), walk_structure(ordering_at(pcs, k)))),
        None => None,
    }
}

pub proof fn lemma_first_legal_bounds(pcs: [u8; 4], k: int)
    ensures
        first_legal_from(pcs, k) matches Some(j) ==> k <= j < 24 && walk_structure(
            ordering_at(pcs, j),
        ).legal_spec(),
    decreases 24 - k,
{
    if 0 <= k < 24 && !walk_structure(ordering_at(pcs, k)).legal_spec() {
        lemma_first_legal_bounds(pcs, k + 1);
    }
}

// ───────────────────────── interval structure ─────────────────────────

/// An interval structure consisting of three intervals that partition
/// the octave within a quintal chord voicing. Each component should
/// be in the set {6, 7, 8} for a legal quintal structure.
#[derive(Debug, Clone, Copy, PartialEq, Eq, Structural, Hash, PartialOrd, Ord)]
pub struct IntervalStructure(pub u8, pub u8, pub u8);

impl IntervalStructure {
    /// Each component lies in {6, 7, 8}.
    pub open spec fn legal_spec(self) -> bool {
        6 <= self.0 <= 8 && 6 <= self.1 <= 8 && 6 <= self.2 <= 8
    }

    /// Create a new interval structure from three interval values.
    pub fn new(a: u8, b: u8, c: u8) -> (r: Self)
        ensures
            r == IntervalStructure(a, b, c),
    {
        IntervalStructure(a, b, c)
    }

    /// Returns `true` if each component is in {6, 7, 8}.
    pub fn is_legal(&self) -> (r: bool)
        ensures
            r == self.legal_spec(),
    {
        6 <= self.0 && self.0 <= 8 && 6 <= self.1 && self.1 <= 8 && 6 <= self.2 && self.2 <= 8
    }

    /// Returns the three intervals as an array.
    pub fn intervals(&self) -> (r: [u8; 3])
        ensures
            r@ == seq![self.0, self.1, self.2],
    {
        let r = [self.0, self.1, self.2];
        assert(r@ =~= seq![self.0, self.1, self.2]);
        r
    }
}

// ───────────────────────── pitch-class chords ─────────────────────────

/// A pitch-class chord of exactly 4 distinct pitch classes (values 0..=11),
/// stored in sorted ascending order.
#[derive(Debug, Clone, Copy, Eq, Hash, PartialOrd, Ord)]
pub struct PcChord {
    /// The four pitch classes in sorted ascending order.
    pub pcs: [u8; 4],
}

/// What [`PcChord::new`] returns for the input `pcs`.
pub open spec fn pc_chord_new_result(pcs: [u8; 4]) -> Result<PcChord, QuintalError> {
    match first_out_of_range4(pcs) {
        Some(pc) => Err(QuintalError::PitchClassOutOfRange(pc)),
        None => if distinct4(pcs) {
            Ok(PcChord { pcs: sorted4(pcs) })
        } else {
            Err(QuintalError::DuplicatePitchClasses)
        },
    }
}

/// `r` is what [`PcChord::new`] returns for the input `pcs`.
pub open spec fn pc_chord_new_spec(pcs: [u8; 4], r: Result<PcChord, QuintalError>) -> bool {
    r == pc_chord_new_result(pcs)
}

impl PcChord {
    /// Every pitch class lies in 0..=11.
    pub open spec fn in_range(self) -> bool {
        self.pcs[0] <= 11 && self.pcs[1] <= 11 && self.pcs[2] <= 11 && self.pcs[3] <= 11
    }

    /// The chord satisfies its documented invariant: four distinct pitch
    /// classes in 0..=11 in ascending order.
    pub open spec fn wf(self) -> bool {
        strictly_ascending4(self.pcs) && self.pcs[3] <= 11
    }

    /// The chord admits a legal quintal interval structure.
    pub open spec fn legal(self) -> bool {
        first_legal_from(self.pcs, 0) is Some
    }

    /// The interval structure of the chord's first legal quintal ordering.
    pub open spec fn interval_structure_spec(self) -> Option<IntervalStructure> {
        match stacking_spec(self.pcs) {
            Some((_, is)) => Some(is),
            None => None,
        }
    }

    /// Create a new `PcChord` from four pitch classes.
    ///
    /// The input is sorted ascending internally. All values must be in 0..=11
    /// and all four must be distinct.
    pub fn new(pcs: [u8; 4]) -> (r: Result<Self, QuintalError>)
        ensures
            pc_chord_new_spec(pcs, r),
            r matches Ok(c) ==> c.wf(),
    {
        let mut i: usize = 0;
        while i < 4
            invariant
                0 <= i <= 4,
                forall|j: int| 0 <= j < i ==> pcs[j] <= 11,
            decreases 4 - i,
        {
            if pcs[i] > 11 {
                return Err(QuintalError::PitchClassOutOfRange(pcs[i]));
            }
            i = i + 1;
        }
        let sorted = sort4(pcs);
        let mut k: usize = 0;
        while k < 3
            invariant
                0 <= k <= 3,
                is_sorting_of(pcs, sorted),
                forall|j: int| 0 <= j < 4 ==> pcs[j] <= 11,
                forall|j: int| 0 <= j < k ==> #[trigger] sorted[j] != sorted[j + 1],
            decreases 3 - k,
        {
            if sorted[k] == sorted[k + 1] {
                proof {
                    assert(count4(sorted, sorted[k as int]) >= 2);
                    assert(count4(pcs, sorted[k as int]) >= 2);
                }
                return Err(QuintalError::DuplicatePitchClasses);
            }
            k = k + 1;
        }
        proof {
            assert(strictly_ascending4(sorted));
            assert(distinct4(pcs)) by {
                assert(count4(sorted, pcs[0]) == count4(pcs, pcs[0]));
                assert(count4(sorted, pcs[1]) == count4(pcs, pcs[1]));
                assert(count4(sorted, pcs[2]) == count4(pcs, pcs[2]));
                assert(count4(sorted, pcs[3]) == count4(pcs, pcs[3]));
            }
            lemma_same_elements_membership(pcs, sorted, 0);
            lemma_same_elements_membership(pcs, sorted, 1);
            lemma_same_elements_membership(pcs, sorted, 2);
            lemma_same_elements_membership(pcs, sorted, 3);
            assert(count4(pcs, sorted[3]) == count4(sorted, sorted[3]));
        }
        Ok(PcChord { pcs: sorted })
    }

    /// Create a `PcChord` from an unsorted slice of pitch classes.
    ///
    /// The slice must contain exactly 4 elements.
    pub fn from_unsorted(pcs: &[u8]) -> (r: Result<Self, QuintalError>)
        ensures
            pcs@.len() != 4 ==> r == Err::<PcChord, QuintalError>(
                QuintalError::WrongCardinality(pcs@.len() as usize),
            ),
            pcs@.len() == 4 ==> pc_chord_new_spec([pcs@[0], pcs@[1], pcs@[2], pcs@[3]], r),
    {
        if pcs.len() != 4 {
            return Err(QuintalError::WrongCardinality(pcs.len()));
        }
        let arr: [u8; 4] = [pcs[0], pcs[1], pcs[2], pcs[3]];
        Self::new(arr)
    }

    /// Search the 24 orderings of the four pitch classes (in lexicographic
    /// permutation order) for the first one whose three forward intervals
    /// (mod 12) are each in {6, 7, 8}; return that ordering and its
    /// interval structure.
    pub fn legal_quintal_stacking(&self) -> (r: Option<([u8; 4], IntervalStructure)>)
        requires
            self.in_range(),
        ensures
            r == stacking_spec(self.pcs),
    {
        let pcs = self.pcs;
        let mut k: usize = 0;
        while k < 24
            invariant
                0 <= k <= 24,
                pcs == self.pcs,
                self.in_range(),
                first_legal_from(pcs, 0) == first_legal_from(pcs, k as int),
            decreases 24 - k,
        {
            let (a, b, c, d) = perm_at(k);
            let w: [u8; 4] = [pcs[a], pcs[b], pcs[c], pcs[d]];
            let i0 = ((w[1] as u16 + 12 - w[0] as u16) % 12) as u8;
            let i1 = ((w[2] as u16 + 12 - w[1] as u16) % 12) as u8;
            let i2 = ((w[3] as u16 + 12 - w[2] as u16) % 12) as u8;
            let is = IntervalStructure(i0, i1, i2);
            proof {
                assert(w == ordering_at(pcs, k as int));
                assert(is == walk_structure(w));
            }
            if is.is_legal() {
                return Some((w, is));
            }
            k = k + 1;
        }
        None
    }

    /// Search all 24 permutations of the four pitch classes for one whose
    /// three forward intervals (mod 12) are each in {6, 7, 8}.
    ///
    /// Returns `Some(IntervalStructure)` for the first valid permutation
    /// found, or `None` if no valid quintal ordering exists.
    pub fn interval_structure(&self) -> (r: Option<IntervalStructure>)
        requires
            self.in_range(),
        ensures
            r == self.interval_structure_spec(),
            r is Some <==> self.legal(),
    {
        match self.legal_quintal_stacking() {
            Some((_, is)) => Some(is),
            None => None,
        }
    }

    /// Returns `true` if this pitch-class chord admits a legal quintal
    /// interval structure (all forward intervals in {6, 7, 8}).
    pub fn is_legal(&self) -> (r: bool)
        requires
            self.in_range(),
        ensures
            r == self.legal(),
    {
        self.interval_structure().is_some()
    }

    /// Returns the four pitch classes as an array.
    pub fn pcs(&self) -> (r: [u8; 4])
        ensures
            r == self.pcs,
    {
        self.pcs
    }
}

// ───────────────────────── voiced chords ─────────────────────────

/// A voiced chord of exactly 4 MIDI pitches in strictly ascending order.
#[derive(Debug, Clone, Copy, Eq, Hash, PartialOrd, Ord)]
pub struct VoicedChord {
    /// The four MIDI pitches in strictly ascending order.
    pub pitches: [u8; 4],
}

/// The interval structure of a voicing: differences of adjacent pitches.
pub open spec fn voicing_structure(p: [u8; 4]) -> IntervalStructure {
    IntervalStructure((p[1] - p[0]) as u8, (p[2] - p[1]) as u8, (p[3] - p[2]) as u8)
}

impl VoicedChord {
    /// What [`VoicedChord::to_pc_chord`] returns.
    pub open spec fn to_pc_result(self) -> Result<PcChord, QuintalError> {
        pc_chord_new_result(mod12_4(self.pitches))
    }

    /// The documented invariant: strictly ascending pitches.
    pub open spec fn wf(self) -> bool {
        strictly_ascending4(self.pitches)
    }

    /// Create a new `VoicedChord` from four MIDI pitches.
    ///
    /// The pitches must be in strictly ascending order.
    pub fn new(pitches: [u8; 4]) -> (r: Result<Self, QuintalError>)
        ensures
            strictly_ascending4(pitches) ==> r == Ok::<VoicedChord, QuintalError>(
                VoicedChord { pitches },
            ),
            !strictly_ascending4(pitches) ==> r == Err::<VoicedChord, QuintalError>(
                QuintalError::NotAscending,
            ),
    {
        if pitches[0] >= pitches[1] || pitches[1] >= pitches[2] || pitches[2] >= pitches[3] {
            return Err(QuintalError::NotAscending);
        }
        Ok(VoicedChord { pitches })
    }

    /// Returns the interval structure by direct subtraction of adjacent pitches.
    pub fn interval_structure(&self) -> (r: IntervalStructure)
        requires
            ascending4(self.pitches),
        ensures
            r == voicing_structure(self.pitches),
    {
        IntervalStructure(
            self.pitches[1] - self.pitches[0],
            self.pitches[2] - self.pitches[1],
            self.pitches[3] - self.pitches[2],
        )
    }

    /// Convert to a `PcChord` by reducing each pitch mod 12.
    ///
    /// Returns an error if the reduction produces duplicate pitch classes
    /// (e.g., pitches 48 and 60 both reduce to pitch class 0).
    pub fn to_pc_chord(&self) -> (r: Result<PcChord, QuintalError>)
        ensures
            pc_chord_new_spec(mod12_4(self.pitches), r),
            r matches Ok(c) ==> c.wf(),
            distinct4(mod12_4(self.pitches)) <==> r is Ok,
    {
        let pcs = [
            self.pitches[0] % 12,
            self.pitches[1] % 12,
            self.pitches[2] % 12,
            self.pitches[3] % 12,
        ];
        assert(pcs == mod12_4(self.pitches));
        PcChord::new(pcs)
    }
}

/// Element-wise equality of two four-element arrays.
fn arrays_equal4(a: &[u8; 4], b: &[u8; 4]) -> (r: bool)
    ensures
        r == (*a == *b),
{
    let r = a[0] == b[0] && a[1] == b[1] && a[2] == b[2] && a[3] == b[3];
    if r {
        assert(*a =~= *b);
    }
    r
}

impl PartialEq for PcChord {
    fn eq(&self, other: &Self) -> (r: bool) {
        arrays_equal4(&self.pcs, &other.pcs)
    }
}

impl vstd::std_specs::cmp::PartialEqSpecImpl for PcChord {
    open spec fn obeys_eq_spec() -> bool {
        true
    }

    open spec fn eq_spec(&self, other: &Self) -> bool {
        self.pcs == other.pcs
    }
}

impl PartialEq for VoicedChord {
    fn eq(&self, other: &Self) -> (r: bool) {
        arrays_equal4(&self.pitches, &other.pitches)
    }
}

impl vstd::std_specs::cmp::PartialEqSpecImpl for VoicedChord {
    open spec fn obeys_eq_spec() -> bool {
        true
    }

    open spec fn eq_spec(&self, other: &Self) -> bool {
        self.pitches == other.pitches
    }
}

/// Fiber classification of a quintal chord: Class A has one inversion with a
/// legal quintal interval structure, Class B has two.
#[derive(Debug, Clone, Copy, PartialEq, Eq, Structural, Hash)]
pub enum FiberClass {
    ClassA,
    ClassB,
}

} // verus!

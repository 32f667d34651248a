//! First-species (note-against-note) counterpoint checking.

use vstd::prelude::*;

use crate::note::pitch::pitch_value;
use crate::note::Note;
use crate::text::{dec, push_decimal, push_str};

verus! {

/// A counterpoint rule violation.
#[derive(Debug, Clone, PartialEq, Eq)]
pub struct Violation {
    /// Beat position (0-indexed).
    pub position: usize,
    /// Rule identifier.
    pub rule: String,
    /// Human-readable explanation.
    pub description: String,
}

/// The result of a counterpoint check.
#[derive(Debug, Clone, PartialEq, Eq)]
pub struct CounterpointResult {
    /// No rule is violated.
    pub valid: bool,
    /// The violations found.
    pub violations: Vec<Violation>,
}

/// A violation as plain values: position, rule identifier, description.
pub type ViolationView = (usize, Seq<char>, Seq<char>);

/// The absolute pitch of a note: `octave * 12 + pitch class`.
pub open spec fn abs_pitch(n: Note) -> int {
    n.octave * 12 + pitch_value(n.pitch)
}

/// The interval class between two notes: their distance in semitones,
/// modulo 12.
pub open spec fn ic_spec(a: Note, b: Note) -> u8 {
    let d = abs_pitch(b) - abs_pitch(a);
    let u = if d < 0 { -d } else { d };
    (u % 12) as u8
}

/// The counterpoint note sounds above the cantus firmus note.
pub open spec fn cp_above_spec(cf: Note, cp: Note) -> bool {
    abs_pitch(cp) > abs_pitch(cf)
}

/// Consonant intervals in first species: P1 (0), m3 (3), M3 (4), P5 (7),
/// m6 (8), M6 (9); P4 (5) only when the counterpoint is above (`upper`).
pub open spec fn consonant(ic: u8, upper: bool) -> bool {
    ic == 0 || ic == 3 || ic == 4 || (ic == 5 && upper) || ic == 7 || ic == 8 || ic == 9
}

/// Perfect consonances: P1/P8 (0), P5 (7); P4 (5) only when the
/// counterpoint is above (`upper`).
pub open spec fn perfect(ic: u8, upper: bool) -> bool {
    ic == 0 || (ic == 5 && upper) || ic == 7
}

/// The violations of consonance and voice crossing at the positions below `m`.
pub open spec fn vertical_violations(cf: Seq<Note>, cp: Seq<Note>, above: bool, m: int) -> Seq<ViolationView>
    decreases m,
{
    if m <= 0 {
        seq![]
    } else {
        let i = m - 1;
        let ic = ic_spec(cf[i], cp[i]);
        let d = if !consonant(ic, cp_above_spec(cf[i], cp[i])) {
            seq![(i as usize, "dissonance"@, "Dissonant interval (ic "@ + dec(ic as nat) + ") at position "@ + dec(i as nat))]
        } else {
            seq![]
        };
        let crossed = (above && abs_pitch(cp[i]) < abs_pitch(cf[i])) || (!above && abs_pitch(cp[i]) > abs_pitch(cf[i]));
        let c = if crossed {
            seq![(i as usize, "voice_crossing"@, "Voice crossing at position "@ + dec(i as nat))]
        } else {
            seq![]
        };
        vertical_violations(cf, cp, above, m - 1) + d + c
    }
}

/// The parallel perfect consonances between positions `i - 1` and `i`, for `1 <= i < m`.
pub open spec fn parallel_violations(cf: Seq<Note>, cp: Seq<Note>, m: int) -> Seq<ViolationView>
    decreases m,
{
    if m <= 1 {
        seq![]
    } else {
        let i = m - 1;
        let prev = ic_spec(cf[i - 1], cp[i - 1]);
        let curr = ic_spec(cf[i], cp[i]);
        parallel_violations(cf, cp, m - 1) + if perfect(prev, cp_above_spec(cf[i - 1], cp[i - 1])) && prev == curr {
            seq![(i as usize, "parallel_perfect"@, "Parallel perfect consonance (ic "@ + dec(curr as nat) + ") at positions "@ + dec((i - 1) as nat) + "-"@ + dec(i as nat))]
        } else {
            seq![]
        }
    }
}

/// All violations of two voices over their first `n` notes, in the order
/// the rules are checked.
pub open spec fn species_violations(cf: Seq<Note>, cp: Seq<Note>, n: int) -> Seq<ViolationView> {
    if n == 0 {
        seq![]
    } else {
        let above = abs_pitch(cp[0]) >= abs_pitch(cf[0]);
        let first = ic_spec(cf[0], cp[0]);
        let opening = if !perfect(first, cp_above_spec(cf[0], cp[0])) {
            seq![(0usize, "opening"@, "Opening interval (ic "@ + dec(first as nat) + ") must be a perfect consonance"@)]
        } else {
            seq![]
        };
        let last = ic_spec(cf[n - 1], cp[n - 1]);
        let closing = if n >= 2 && !perfect(last, cp_above_spec(cf[n - 1], cp[n - 1])) {
            seq![((n - 1) as usize, "closing"@, "Closing interval (ic "@ + dec(last as nat) + ") must be a perfect consonance"@)]
        } else {
            seq![]
        };
        vertical_violations(cf, cp, above, n) + opening + closing + parallel_violations(cf, cp, n)
    }
}

/// The plain values of a list of violations.
pub open spec fn violations_view(v: Seq<Violation>) -> Seq<ViolationView> {
    v.map_values(|x: Violation| (x.position, x.rule@, x.description@))
}

/// The absolute pitch of a note.
fn absolute_pitch(note: &Note) -> (r: i16)
    ensures
        r == abs_pitch(*note),
{
    note.octave as i16 * 12 + note.pitch.as_u8() as i16
}

/// The interval class between two notes.
fn interval_class(a: &Note, b: &Note) -> (r: u8)
    ensures
        r == ic_spec(*a, *b),
{
    let d: i16 = absolute_pitch(b) - absolute_pitch(a);
    let u: i16 = if d < 0 {
        -d
    } else {
        d
    };
    (u % 12) as u8
}

/// Whether the counterpoint note sounds above the cantus firmus note.
fn sounds_above(cf: &Note, cp: &Note) -> (r: bool)
    ensures
        r == cp_above_spec(*cf, *cp),
{
    absolute_pitch(cp) > absolute_pitch(cf)
}

/// Whether an interval class is consonant in first species, the
/// counterpoint being above (`upper`) or not.
fn is_consonant(ic: u8, upper: bool) -> (r: bool)
    ensures
        r == consonant(ic, upper),
{
    ic == 0 || ic == 3 || ic == 4 || (ic == 5 && upper) || ic == 7 || ic == 8 || ic == 9
}

/// Whether an interval class is a perfect consonance, the counterpoint
/// being above (`upper`) or not.
fn is_perfect_consonance(ic: u8, upper: bool) -> (r: bool)
    ensures
        r == perfect(ic, upper),
{
    ic == 0 || (ic == 5 && upper) || ic == 7
}

/// A violation with its rule and description.
fn violation(position: usize, rule: &str, description: String) -> (r: Violation)
    ensures
        r.position == position,
        r.rule@ == rule@,
        r.description@ == description@,
{
    let mut s = String::new();
    push_str(&mut s, rule);
    Violation { position, rule: s, description }
}

/// Append a violation, keeping the view of the list in step.
fn push_violation(v: &mut Vec<Violation>, x: Violation)
    ensures
        violations_view(final(v)@) == violations_view(old(v)@).push((x.position, x.rule@, x.description@)),
{
    v.push(x);
    assert(violations_view(v@) =~= violations_view(old(v)@).push((x.position, x.rule@, x.description@)));
}

/// Check two voices against first-species counterpoint rules, over their
/// common length: every vertical interval consonant (a fourth only with the
/// counterpoint above), no voice crossing
/// (relative to the first notes), a perfect opening and closing interval,
/// and no parallel perfect consonances.
pub fn check_first_species(cantus_firmus: &[Note], counterpoint: &[Note]) -> (r: CounterpointResult)
    ensures
        ({
            let n = if cantus_firmus@.len() <= counterpoint@.len() {
                cantus_firmus@.len()
            } else {
                counterpoint@.len()
            };
            &&& violations_view(r.violations@) == species_violations(cantus_firmus@, counterpoint@, n as int)
            &&& r.valid == (r.violations@.len() == 0)
        }),
{
    let n = if cantus_firmus.len() <= counterpoint.len() {
        cantus_firmus.len()
    } else {
        counterpoint.len()
    };
    let mut violations: Vec<Violation> = Vec::new();
    if n == 0 {
        assert(violations_view(violations@) =~= seq![]);
        return CounterpointResult { valid: true, violations };
    }
    let ghost cf = cantus_firmus@;
    let ghost cpv = counterpoint@;
    let cp_above = absolute_pitch(&counterpoint[0]) >= absolute_pitch(&cantus_firmus[0]);
    let mut i: usize = 0;
    assert(violations_view(violations@) =~= seq![]);
    while i < n
        invariant
            0 <= i <= n,
            n <= cf.len(),
            n <= cpv.len(),
            cf == cantus_firmus@,
            cpv == counterpoint@,
            cp_above == (abs_pitch(cpv[0]) >= abs_pitch(cf[0])),
            violations_view(violations@) == vertical_violations(cf, cpv, cp_above, i as int),
        decreases n - i,
    {
        let ic = interval_class(&cantus_firmus[i], &counterpoint[i]);
        let ghost before = violations_view(violations@);
        let upper = sounds_above(&cantus_firmus[i], &counterpoint[i]);
        if !is_consonant(ic, upper) {
            let mut d = String::new();
            push_str(&mut d, "Dissonant interval (ic ");
            push_decimal(&mut d, ic as u64);
            push_str(&mut d, ") at position ");
            push_decimal(&mut d, i as u64);
            push_violation(&mut violations, violation(i, "dissonance", d));
        }
        let ghost mid = violations_view(violations@);
        let cp_pitch = absolute_pitch(&counterpoint[i]);
        let cf_pitch = absolute_pitch(&cantus_firmus[i]);
        let crossed = (cp_above && cp_pitch < cf_pitch) || (!cp_above && cp_pitch > cf_pitch);
        if crossed {
            let mut d = String::new();
            push_str(&mut d, "Voice crossing at position ");
            push_decimal(&mut d, i as u64);
            push_violation(&mut violations, violation(i, "voice_crossing", d));
        }
        proof {
            let dd = if !consonant(ic, upper) {
                seq![(i as usize, "dissonance"@, "Dissonant interval (ic "@ + dec(ic as nat) + ") at position "@ + dec(i as nat))]
            } else {
                seq![]
            };
            assert(mid =~= before + dd);
            assert(violations_view(violations@) =~= vertical_violations(cf, cpv, cp_above, i + 1));
        }
        i = i + 1;
    }
    let ghost vert = violations_view(violations@);
    let first_ic = interval_class(&cantus_firmus[0], &counterpoint[0]);
    if !is_perfect_consonance(first_ic, sounds_above(&cantus_firmus[0], &counterpoint[0])) {
        let mut d = String::new();
        push_str(&mut d, "Opening interval (ic ");
        push_decimal(&mut d, first_ic as u64);
        push_str(&mut d, ") must be a perfect consonance");
        push_violation(&mut violations, violation(0, "opening", d));
    }
    let ghost after_open = violations_view(violations@);
    if n >= 2 {
        let last_ic = interval_class(&cantus_firmus[n - 1], &counterpoint[n - 1]);
        if !is_perfect_consonance(last_ic, sounds_above(&cantus_firmus[n - 1], &counterpoint[n - 1])) {
            let mut d = String::new();
            push_str(&mut d, "Closing interval (ic ");
            push_decimal(&mut d, last_ic as u64);
            push_str(&mut d, ") must be a perfect consonance");
            push_violation(&mut violations, violation(n - 1, "closing", d));
        }
    }
    let ghost head = violations_view(violations@);
    let mut j: usize = 1;
    assert(head =~= head + parallel_violations(cf, cpv, 1));
    while j < n
        invariant
            1 <= j <= n,
            n <= cf.len(),
            n <= cpv.len(),
            cf == cantus_firmus@,
            cpv == counterpoint@,
            violations_view(violations@) == head + parallel_violations(cf, cpv, j as int),
        decreases n - j,
    {
        let prev_ic = interval_class(&cantus_firmus[j - 1], &counterpoint[j - 1]);
        let curr_ic = interval_class(&cantus_firmus[j], &counterpoint[j]);
        let ghost before = violations_view(violations@);
        if is_perfect_consonance(prev_ic, sounds_above(&cantus_firmus[j - 1], &counterpoint[j - 1])) && prev_ic == curr_ic {
            let mut d = String::new();
            push_str(&mut d, "Parallel perfect consonance (ic ");
            push_decimal(&mut d, curr_ic as u64);
            push_str(&mut d, ") at positions ");
            push_decimal(&mut d, (j - 1) as u64);
            push_str(&mut d, "-");
            push_decimal(&mut d, j as u64);
            push_violation(&mut violations, violation(j, "parallel_perfect", d));
        }
        proof {
            assert(violations_view(violations@) =~= head + parallel_violations(cf, cpv, j + 1));
        }
        j = j + 1;
    }
    let valid = violations.len() == 0;
    CounterpointResult { valid, violations }
}

/// The notes at position `j` clash: their distance in semitones, modulo 12,
/// is none of the first-species consonances P1, m3, M3, P5, m6, M6
/// (0, 3, 4, 7, 8, 9), nor a fourth (5) with the counterpoint above.
spec fn clash_at(cf: Seq<Note>, cp: Seq<Note>, j: int) -> bool {
    let d = abs_pitch(cp[j]) - abs_pitch(cf[j]);
    let c = (if d < 0 { -d } else { d }) % 12;
    !(c == 0 || c == 3 || c == 4 || c == 7 || c == 8 || c == 9 || (c == 5 && d > 0))
}

/// Over the positions below `m`, the vertical check reports a dissonance at
/// position `j` exactly when the notes at `j` clash.
proof fn lemma_vertical_dissonance(cf: Seq<Note>, cp: Seq<Note>, above: bool, m: int)
    requires
        0 <= m <= cf.len(),
        m <= cp.len(),
        m <= usize::MAX,
    ensures
        forall|k: int| 0 <= k < vertical_violations(cf, cp, above, m).len()
            ==> (#[trigger] vertical_violations(cf, cp, above, m)[k]).0 < m,
        forall|k: int| 0 <= k < vertical_violations(cf, cp, above, m).len()
            && (#[trigger] vertical_violations(cf, cp, above, m)[k]).1 == "dissonance"@
            ==> clash_at(cf, cp, vertical_violations(cf, cp, above, m)[k].0 as int),
        forall|j: int| 0 <= j < m && #[trigger] clash_at(cf, cp, j)
            ==> exists|k: int| 0 <= k < vertical_violations(cf, cp, above, m).len()
                && (#[trigger] vertical_violations(cf, cp, above, m)[k]).0 == j
                && vertical_violations(cf, cp, above, m)[k].1 == "dissonance"@,
    decreases m,
{
    reveal_strlit("dissonance");
    reveal_strlit("voice_crossing");
    if m > 0 {
        let i = m - 1;
        lemma_vertical_dissonance(cf, cp, above, i);
        let prev = vertical_violations(cf, cp, above, i);
        let all = vertical_violations(cf, cp, above, m);
        let ic = ic_spec(cf[i], cp[i]);
        assert(consonant(ic, cp_above_spec(cf[i], cp[i])) == !clash_at(cf, cp, i));
        assert forall|k: int| 0 <= k < prev.len() implies all[k] == prev[k] by {}
        if clash_at(cf, cp, i) {
            assert(all[prev.len() as int].0 == i);
            assert(all[prev.len() as int].1 == "dissonance"@);
        }
        assert forall|k: int| prev.len() <= k < all.len() implies all[k].0 == i by {}
        assert forall|k: int| prev.len() <= k < all.len() && all[k].1 == "dissonance"@
            implies clash_at(cf, cp, i) by {
            if !clash_at(cf, cp, i) {
                assert(all[k].1 == "voice_crossing"@);
                assert("voice_crossing"@.len() != "dissonance"@.len());
            }
        }
        assert forall|j: int| 0 <= j < m && #[trigger] clash_at(cf, cp, j)
            implies exists|k: int| 0 <= k < all.len() && (#[trigger] all[k]).0 == j
                && all[k].1 == "dissonance"@ by {
            if j < i {
                let k = choose|k: int| 0 <= k < prev.len() && (#[trigger] prev[k]).0 == j
                    && prev[k].1 == "dissonance"@;
                assert(all[k] == prev[k]);
            } else {
                assert(all[prev.len() as int].0 == j);
            }
        }
    }
}

/// A position of two voices is reported as a dissonance exactly when the
/// distance in semitones between their notes there, modulo 12, is none of
/// the first-species consonances P1, m3, M3, P5, m6, M6 (0, 3, 4, 7, 8, 9)
/// and is not a fourth (5) with the counterpoint sounding above: a major
/// sixth, for one, is never reported.
pub proof fn lemma_dissonance_exact(cf: Seq<Note>, cp: Seq<Note>, n: int, i: int)
    requires
        0 <= i < n,
        n <= cf.len(),
        n <= cp.len(),
        n <= usize::MAX,
    ensures
        (exists|k: int| 0 <= k < species_violations(cf, cp, n).len()
            && (#[trigger] species_violations(cf, cp, n)[k]).0 == i
            && species_violations(cf, cp, n)[k].1 == "dissonance"@)
        <==> ({
            let d = abs_pitch(cp[i]) - abs_pitch(cf[i]);
            let c = (if d < 0 { -d } else { d }) % 12;
            !(c == 0 || c == 3 || c == 4 || c == 7 || c == 8 || c == 9 || (c == 5 && d > 0))
        }),
{
    reveal_strlit("dissonance");
    reveal_strlit("opening");
    reveal_strlit("closing");
    reveal_strlit("parallel_perfect");
    let above = abs_pitch(cp[0]) >= abs_pitch(cf[0]);
    lemma_vertical_dissonance(cf, cp, above, n);
    lemma_parallel_rule(cf, cp, n);
    let vert = vertical_violations(cf, cp, above, n);
    let all = species_violations(cf, cp, n);
    let first = ic_spec(cf[0], cp[0]);
    let opening = if !perfect(first, cp_above_spec(cf[0], cp[0])) {
        seq![(0usize, "opening"@, "Opening interval (ic "@ + dec(first as nat) + ") must be a perfect consonance"@)]
    } else {
        seq![]
    };
    let last = ic_spec(cf[n - 1], cp[n - 1]);
    let closing = if n >= 2 && !perfect(last, cp_above_spec(cf[n - 1], cp[n - 1])) {
        seq![((n - 1) as usize, "closing"@, "Closing interval (ic "@ + dec(last as nat) + ") must be a perfect consonance"@)]
    } else {
        seq![]
    };
    let par = parallel_violations(cf, cp, n);
    assert(all == vert + opening + closing + par);
    assert forall|k: int| 0 <= k < vert.len() implies all[k] == vert[k] by {}
    assert forall|k: int| vert.len() <= k < all.len() implies all[k].1 != "dissonance"@ by {
        let o = vert.len() + opening.len();
        let c = o + closing.len();
        assert("dissonance"@.len() == 10);
        if k < o {
            assert(all[k] == opening[k - vert.len()]);
            assert(all[k].1 == "opening"@);
            assert("opening"@.len() == 7);
        } else if k < c {
            assert(all[k] == closing[k - o]);
            assert(all[k].1 == "closing"@);
            assert("closing"@.len() == 7);
        } else {
            assert(all[k] == par[k - c]);
            assert(par[k - c].1 == "parallel_perfect"@);
            assert("parallel_perfect"@.len() == 16);
        }
    }
    if clash_at(cf, cp, i) {
        let k = choose|k: int| 0 <= k < vert.len() && (#[trigger] vert[k]).0 == i
            && vert[k].1 == "dissonance"@;
        assert(all[k] == vert[k]);
    }
    if exists|k: int| 0 <= k < all.len() && (#[trigger] all[k]).0 == i && all[k].1 == "dissonance"@ {
        let k = choose|k: int| 0 <= k < all.len() && (#[trigger] all[k]).0 == i && all[k].1 == "dissonance"@;
        assert(k < vert.len());
        assert(all[k] == vert[k]);
        assert(clash_at(cf, cp, vert[k].0 as int));
    }
}

/// Every entry of the parallel check carries the rule `parallel_perfect`.
proof fn lemma_parallel_rule(cf: Seq<Note>, cp: Seq<Note>, m: int)
    ensures
        forall|k: int| 0 <= k < parallel_violations(cf, cp, m).len()
            ==> (#[trigger] parallel_violations(cf, cp, m)[k]).1 == "parallel_perfect"@,
    decreases m,
{
    if m > 1 {
        lemma_parallel_rule(cf, cp, m - 1);
        let prev = parallel_violations(cf, cp, m - 1);
        let all = parallel_violations(cf, cp, m);
        assert forall|k: int| 0 <= k < all.len() implies (#[trigger] all[k]).1 == "parallel_perfect"@ by {
            if k < prev.len() {
                assert(all[k] == prev[k]);
            }
        }
    }
}

} // verus!

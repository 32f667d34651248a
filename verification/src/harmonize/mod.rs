//! Melody harmonization with voice-led OTH chord progressions.
//!
//! Each melody note pins the top voice of a four-note voiced chord drawn
//! from the base space (quintal and/or quartal voicings); the top-K
//! progressions with the least total voice-leading movement are returned.

pub mod candidates;
pub mod canonicalize;
pub mod functional;
pub mod types;
pub mod viterbi;

pub use canonicalize::canonicalize_melody;
pub use viterbi::top_k_viterbi;
pub use types::{DualityScope, HarmonizeError, HarmonizeOptions, Harmonization, MelodyInput};
pub use candidates::{candidates_for_top, shift_to_top};
pub use functional::{classify_trajectory, match_functional_pathways, MatchedPathway, Trajectory};

use vstd::prelude::*;

use crate::quintal::base_space::{enumerates_base, BaseSpace};
use crate::quintal::types::{PcChord, VoicedChord};
use candidates::{candidates_upto, same_candidates};
use canonicalize::{canonicalize_spec, same_result};
use viterbi::{
    all_kept_no_dearer, distinct_candidates, is_progression, k_best_paths, layers_view, lemma_k_best_unique,
    min_nat, path_count,
};

verus! {

/// The candidate layers for the first `n` targets, over the chords `cs`,
/// or the first error: a failed shift, or a position without candidates.
#[verifier::opaque]
pub open spec fn layers_upto(cs: Seq<PcChord>, t: Seq<u8>, d: DualityScope, n: int) -> Result<Seq<Seq<VoicedChord>>, HarmonizeError>
    decreases n,
{
    if n <= 0 {
        Ok(seq![])
    } else {
        match layers_upto(cs, t, d, n - 1) {
            Err(e) => Err(e),
            Ok(prev) => match candidates_upto(cs, t[n - 1], d, (n - 1) as usize, cs.len() as int) {
                Err(e) => Err(e),
                Ok(c) => if c.len() == 0 {
                    Err(HarmonizeError::NoCandidatesForPosition { position: (n - 1) as usize, top_midi: t[n - 1] })
                } else {
                    Ok(prev.push(c))
                },
            },
        }
    }
}

/// `hs` are the k-best progressions through the layers `ls`: as many as
/// `k` and the number of paths allow, each a progression through the
/// layers, by non-decreasing total movement; every progression left out
/// costs at least as much as each one kept, and none is kept twice when no
/// layer repeats a chord.
pub open spec fn kbest_ok(hs: Seq<Harmonization>, ls: Seq<Seq<VoicedChord>>, k: usize) -> bool {
    &&& hs.len() == min_nat(k as nat, path_count(ls, ls.len() as int))
    &&& forall|i: int| 0 <= i < hs.len() ==> is_progression(ls, #[trigger] hs[i])
    &&& forall|i: int, j: int| 0 <= i < j < hs.len() ==> hs[i].total_movement <= hs[j].total_movement
    &&& ls.len() > 0 && k > 0 ==> forall|h: Harmonization|
        is_progression(ls, h) && (forall|i: int| 0 <= i < hs.len() ==> (#[trigger] hs[i]).chords@ != h.chords@)
            ==> #[trigger] all_kept_no_dearer(hs, h, k as nat)
    &&& distinct_candidates(ls) ==> forall|i: int, j: int|
        0 <= i < j < hs.len() ==> (#[trigger] hs[i]).chords@ != (#[trigger] hs[j]).chords@
    &&& ls.len() > 0 && k > 0 ==> exists|ps: Seq<Seq<usize>>| k_best_paths(ls, hs, k as nat, ps)
}

/// **The k-best results are those of the search.** Two lists that both meet
/// the k-best contract for the same candidate layers and `k`, such as the
/// progressions `harmonize_melody` returns and those `top_k_viterbi`
/// returns for the same layers, are the same progressions.
pub proof fn lemma_kbest_determined(ls: Seq<Seq<VoicedChord>>, k: usize, h1: Seq<Harmonization>, h2: Seq<Harmonization>)
    requires
        ls.len() >= 1,
        kbest_ok(h1, ls, k),
        kbest_ok(h2, ls, k),
    ensures
        h1.len() == h2.len(),
        forall|i: int|
            0 <= i < h1.len() ==> (#[trigger] h1[i]).chords@ == h2[i].chords@ && h1[i].per_step_movements@
                == h2[i].per_step_movements@ && h1[i].total_movement == h2[i].total_movement,
{
    if k > 0 {
        lemma_k_best_unique(ls, k as nat, h1, h2);
    }
}

/// What harmonizing a melody returns, given the chords `cs` of the base space.
pub open spec fn harmonize_ok(r: Result<Vec<Harmonization>, HarmonizeError>, m: MelodyInput, o: HarmonizeOptions, cs: Seq<PcChord>) -> bool {
    match canonicalize_spec(m, o) {
        Err(e) => r == Err::<Vec<Harmonization>, HarmonizeError>(e),
        Ok(t) => if o.k == 0 {
            r is Ok && r->Ok_0@.len() == 0
        } else {
            match (layers_upto(cs, t, o.duality, t.len() as int), r) {
                (Err(e), Err(x)) => e == x,
                (Ok(ls), Ok(hs)) => kbest_ok(hs@, ls, o.k),
                _ => false,
            }
        },
    }
}

/// The number of notes of a melody.
pub open spec fn melody_len(m: MelodyInput) -> nat {
    match m {
        MelodyInput::PitchClasses(v) => v@.len(),
        MelodyInput::Pitches(v) => v@.len(),
    }
}

/// An error among the first `m` positions is the error of any longer prefix.
proof fn lemma_layers_err(cs: Seq<PcChord>, t: Seq<u8>, d: DualityScope, m: int, n: int)
    requires
        0 <= m <= n,
        layers_upto(cs, t, d, m) is Err,
    ensures
        layers_upto(cs, t, d, n) == layers_upto(cs, t, d, m),
    decreases n - m,
{
    reveal(layers_upto);
    if m < n {
        lemma_layers_err(cs, t, d, m, n - 1);
    }
}

/// The canonical targets of a melody are as many as its notes.
proof fn lemma_canon_len(m: MelodyInput, o: HarmonizeOptions)
    ensures
        canonicalize_spec(m, o) matches Ok(t) ==> t.len() == melody_len(m) && t.len() > 0,
{
    match m {
        MelodyInput::PitchClasses(v) => lemma_canon_pcs_len(v@, o, v@.len() as int),
        MelodyInput::Pitches(v) => lemma_canon_pitches_len(v@, o, v@.len() as int),
    }
}

proof fn lemma_canon_pcs_len(pcs: Seq<u8>, o: HarmonizeOptions, n: int)
    requires
        n >= 0,
    ensures
        canonicalize::canon_pcs(pcs, o, n) matches Ok(t) ==> t.len() == n,
    decreases n,
{
    if n > 0 {
        lemma_canon_pcs_len(pcs, o, n - 1);
    }
}

proof fn lemma_canon_pitches_len(ps: Seq<u8>, o: HarmonizeOptions, n: int)
    requires
        n >= 0,
    ensures
        canonicalize::canon_pitches(ps, o, n) matches Ok(t) ==> t.len() == n,
    decreases n,
{
    if n > 0 {
        lemma_canon_pitches_len(ps, o, n - 1);
    }
}

/// The candidate layers of a list of targets have one layer per target.
proof fn lemma_layers_len(cs: Seq<PcChord>, t: Seq<u8>, d: DualityScope, n: int)
    requires
        n >= 0,
    ensures
        layers_upto(cs, t, d, n) matches Ok(ls) ==> ls.len() == n,
    decreases n,
{
    reveal(layers_upto);
    if n > 0 {
        lemma_layers_len(cs, t, d, n - 1);
    }
}

/// A computed list of layers, or error, agrees with the expected one.
pub open spec fn same_layers(r: Result<Vec<Vec<VoicedChord>>, HarmonizeError>, e: Result<Seq<Seq<VoicedChord>>, HarmonizeError>) -> bool {
    match (r, e) {
        (Ok(v), Ok(s)) => layers_view(v@) == s,
        (Err(a), Err(b)) => a == b,
        _ => false,
    }
}

/// One more position of the layers, from the candidates at that position.
proof fn lemma_layers_next(cs: Seq<PcChord>, t: Seq<u8>, d: DualityScope, pos: int, l: Seq<Seq<VoicedChord>>, c: Result<Seq<VoicedChord>, HarmonizeError>)
    requires
        pos >= 0,
        layers_upto(cs, t, d, pos) == Ok::<Seq<Seq<VoicedChord>>, HarmonizeError>(l),
        c == candidates_upto(cs, t[pos], d, pos as usize, cs.len() as int),
    ensures
        layers_upto(cs, t, d, pos + 1) == match c {
            Err(e) => Err(e),
            Ok(x) => if x.len() == 0 {
                Err(HarmonizeError::NoCandidatesForPosition { position: pos as usize, top_midi: t[pos] })
            } else {
                Ok(l.push(x))
            },
        },
{
    reveal(layers_upto);
}

/// The candidate layers of the targets, one per position, or the first error.
fn build_layers(targets: &Vec<u8>, duality: DualityScope, space: &BaseSpace) -> (r: Result<Vec<Vec<VoicedChord>>, HarmonizeError>)
    ensures
        same_layers(r, layers_upto(space.chords_view(), targets@, duality, targets@.len() as int)),
{
    let ghost cs = space.chords_view();
    let mut layers: Vec<Vec<VoicedChord>> = Vec::new();
    proof {
        reveal(layers_upto);
        assert(layers_view(layers@) =~= seq![]);
    }
    let mut pos: usize = 0;
    while pos < targets.len()
        invariant
            0 <= pos <= targets@.len(),
            cs == space.chords_view(),
            layers_upto(cs, targets@, duality, pos as int) == Ok::<Seq<Seq<VoicedChord>>, HarmonizeError>(layers_view(layers@)),
        decreases targets@.len() - pos,
    {
        let target = targets[pos];
        let ghost lv = layers_view(layers@);
        let res = candidates::candidates_for_top(target, duality, space, pos);
        proof {
            lemma_layers_next(cs, targets@, duality, pos as int, lv, candidates_upto(cs, target, duality, pos, cs.len() as int));
        }
        match res {
            Err(e) => {
                proof {
                    lemma_layers_err(cs, targets@, duality, pos + 1, targets@.len() as int);
                }
                return Err(e);
            },
            Ok(cands) => {
                if cands.len() == 0 {
                    proof {
                        lemma_layers_err(cs, targets@, duality, pos + 1, targets@.len() as int);
                    }
                    return Err(HarmonizeError::NoCandidatesForPosition { position: pos, top_midi: target });
                }
                layers.push(cands);
                proof {
                    assert(layers_view(layers@) =~= lv.push(cands@));
                }
            },
        }
        pos = pos + 1;
    }
    Ok(layers)
}

/// Harmonize a melody with the top-K voice-led OTH progressions: convert
/// the melody to top-voice targets, collect for each target the candidate
/// chords of the base space with that pitch on top, and return the K
/// progressions through the candidate layers with the least total movement,
/// cheapest first.
pub fn harmonize_melody(melody: MelodyInput, options: HarmonizeOptions) -> (r: Result<Vec<Harmonization>, HarmonizeError>)
    requires
        melody_len(melody) <= 4_000_000,
    ensures
        exists|cs: Seq<PcChord>| #[trigger] enumerates_base(cs) && harmonize_ok(r, melody, options, cs),
{
    proof {
        lemma_canon_len(melody, options);
    }
    let space = BaseSpace::new();
    let ghost cs = space.chords_view();
    let targets = match canonicalize_melody(&melody, &options) {
        Ok(t) => t,
        Err(e) => {
            let r: Result<Vec<Harmonization>, HarmonizeError> = Err(e);
            assert(harmonize_ok(r, melody, options, cs));
            return r;
        },
    };
    if options.k == 0 {
        let r: Result<Vec<Harmonization>, HarmonizeError> = Ok(Vec::new());
        assert(harmonize_ok(r, melody, options, cs));
        return r;
    }
    let layers = match build_layers(&targets, options.duality, &space) {
        Ok(l) => l,
        Err(e) => {
            let r: Result<Vec<Harmonization>, HarmonizeError> = Err(e);
            assert(harmonize_ok(r, melody, options, cs));
            return r;
        },
    };
    proof {
        lemma_layers_len(cs, targets@, options.duality, targets@.len() as int);
    }
    let hs = top_k_viterbi(&layers, options.k);
    let r: Result<Vec<Harmonization>, HarmonizeError> = Ok(hs);
    assert(harmonize_ok(r, melody, options, cs));
    r
}

} // verus!

# music_comp_mt

A music theory library for Open Tone Harmony (OTH): the 228-chord quintal
base space of four-note chords stacked in diminished, perfect and augmented
fifths, its voice-leading graph, the 14 T/I orbits, the quartal (fourths)
reading of the same chords, and a melody harmonizer that finds the
least-movement progressions through the space. The library is written in
Verus: every function carries a contract, and the structural laws are
stated and proved as proof functions.

## Layout

- `src/note` — pitches, notes, MIDI pitch numbers and note-name parsing.
- `src/quintal` — pitch-class and voiced chords, the base space and its
  graph (`base_space`, `bfs`, `graph`), distances and the metric laws
  (`distance`, `metric`), shortest paths and the geodesic profile
  (`geodesics`, `geodesic_laws`, `profile`), the T/I group and the orbit classification
  (`group`, `orbit`, `classification`), the self-duality of the orbits
  (`duality`), the T1 fiber and the Universal L1
  Law (`fiber`, `verification`), functional regions and pathways, OTH modes,
  and chord spelling (`display`).
- `src/quartal` — the fourths perspective: interval complements, quartal
  orbits, constructors, the reversed inversion cycle and its L1 law.
- `src/voice_leading` — the assignment-optimal voice-leading distance.
- `src/harmonize` — melody canonicalization, candidate voicings, the k-best
  search over candidate layers and the functional analysis of its results.
- `src/counterpoint` — first-species counterpoint checks.
- `tests/` — tests run against the compiled library.
- `app/` — the `mt` command-line tool (argument parsing, JSON output, and
  the floating-point summary of the geodesic profile).

## Main laws proved

- Universal L1 Law, both directions: consecutive members of the T1 and the
  quartal inversion cycles are 12, 12, 12 and 36 semitones apart.
- T1 and T-1 undo each other, move the voices up or down by an octave in
  all, and four T1 steps transpose a voicing up an octave; the quartal
  cycle is the T1 cycle reversed, and both cycles give every chord the
  same fiber class.
- The orbit sizes add up to 228. Every chord of the base space lies in one
  of the 14 orbits, and the
  orbit of a chord does not change under transposition or inversion.
- Every orbit is self-dual: a legal stacking read backwards (the quartal
  reading) stacks a chord of the same orbit.
- The graph distance is a metric (identity, symmetry, triangle inequality),
  so is the positional L1 distance between voicings, and the
  assignment-optimal voice-leading distance is symmetric, never exceeds the
  positional one, and equals it when both voicings ascend.
- The number of shortest paths equals the number of walks of that length;
  the list of shortest paths between two chords holds every shortest chord
  path exactly once; the chords listed between two chords are exactly those
  on some shortest path, in the order of the space; and the per-source
  distance and path-count tables agree with the single-pair queries.
- The harmonizer returns the k cheapest paths through its candidate
  layers, cheapest first, as pairwise distinct paths of candidate indices
  (distinct chord sequences when no layer repeats a chord); every path left
  out costs at least as much as the last one returned. Equal costs are
  ordered by the candidate of the last layer, then by the candidates before
  it, so the results are fully determined.
- The interval complement is an involution and the quartal and quintal
  orbit labels are in bijection.

## Differences from the published figures

- The largest number of shortest paths between two chords of the base
  space is 1136. The figure of 298 sometimes given for the geodesic
  enumeration is the largest number of shortest paths from C-G-D-A (the
  major analogue) to another chord; both figures are checked by tests.

## Not included

The crate does not cover chord and scale construction, diatonic harmony,
betweenness centrality or the table of OTH modes and parent scales, and so
has none of the functions built on them:

- `roman_numeral`, `RomanNumeral`, `secondary_dominant`, `SecondaryDominant`
  and `compatible_scales` (chord and scale analysis);
- `quartal_saddle_chords` and `quartal_orbits_by_betweenness` (betweenness
  centrality, a floating-point measure);
- `quartal_orbit_modes` (the modes of each orbit);
- `scale`, `chord` and the mode, orbit, parent-scale and export commands of
  the command-line tool.

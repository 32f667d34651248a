use music_comp_mt::harmonize::top_k_viterbi;
use music_comp_mt::quintal::{min_voiced_chord_l1, VoicedChord};

#[test]
fn test_single_layer_single_candidate() {
    let c = VoicedChord::new([48, 55, 62, 69]).unwrap();
    let layers = vec![vec![c]];
    let results = top_k_viterbi(&layers, 1);
    println!("single_layer_single: {:?}", results);
    assert_eq!(results.len(), 1);
    assert_eq!(results[0].chords, vec![c]);
    assert_eq!(results[0].per_step_movements, Vec::<u32>::new());
    assert_eq!(results[0].total_movement, 0);
}

#[test]
fn test_two_layers_cheapest_path() {
    let a = VoicedChord::new([48, 55, 62, 69]).unwrap();
    let b = VoicedChord::new([49, 56, 63, 70]).unwrap();
    let c = VoicedChord::new([60, 67, 74, 81]).unwrap();
    let ac = min_voiced_chord_l1(&a, &c);
    let bc = min_voiced_chord_l1(&b, &c);
    println!("edges: a→c={}, b→c={}", ac, bc);
    let layers = vec![vec![a, b], vec![c]];
    let results = top_k_viterbi(&layers, 2);
    println!("two_layers results: {:?}", results.iter().map(|r| r.total_movement).collect::<Vec<_>>());
    assert_eq!(results.len(), 2);
    assert!(results[0].total_movement <= results[1].total_movement);
    assert_eq!(results[0].total_movement, ac.min(bc));
}

#[test]
fn test_same_candidates_zero_movement() {
    let c = VoicedChord::new([48, 55, 62, 69]).unwrap();
    let layers = vec![vec![c], vec![c]];
    let results = top_k_viterbi(&layers, 5);
    println!("same_candidate: {:?}", results);
    assert_eq!(results.len(), 1);
    assert_eq!(results[0].total_movement, 0);
    assert_eq!(results[0].chords, vec![c, c]);
}

#[test]
fn test_empty_layers_returns_empty() {
    let results = top_k_viterbi(&[], 10);
    assert!(results.is_empty());
}

#[test]
fn test_k_zero_returns_empty() {
    let c = VoicedChord::new([48, 55, 62, 69]).unwrap();
    let results = top_k_viterbi(&[vec![c]], 0);
    assert!(results.is_empty());
}

#[test]
fn test_results_sorted_ascending() {
    let a = VoicedChord::new([48, 55, 62, 69]).unwrap();
    let b = VoicedChord::new([49, 56, 63, 70]).unwrap();
    let c = VoicedChord::new([50, 57, 64, 71]).unwrap();
    let layers = vec![vec![a, b, c], vec![a, b, c], vec![a, b, c]];
    let results = top_k_viterbi(&layers, 10);
    println!("sorted_check: {:?}", results.iter().map(|r| r.total_movement).collect::<Vec<_>>());
    for w in results.windows(2) {
        assert!(w[0].total_movement <= w[1].total_movement);
    }
}

#[test]
fn viterbi_result_count_is_min_of_k_and_paths() {
    let a = VoicedChord::new([48, 55, 62, 69]).unwrap();
    let b = VoicedChord::new([49, 56, 63, 70]).unwrap();
    let c = VoicedChord::new([50, 57, 64, 71]).unwrap();
    let layers = vec![vec![a, b, c], vec![a, b, c], vec![a, b, c]];
    assert_eq!(top_k_viterbi(&layers, 10).len(), 10);
    assert_eq!(top_k_viterbi(&layers, 100).len(), 27);
}

#[test]
fn viterbi_movements_sum_to_total() {
    let a = VoicedChord::new([48, 55, 62, 69]).unwrap();
    let b = VoicedChord::new([49, 56, 63, 70]).unwrap();
    let layers = vec![vec![a, b], vec![b], vec![a]];
    for h in top_k_viterbi(&layers, 4) {
        assert_eq!(h.chords.len(), 3);
        assert_eq!(h.per_step_movements.len(), 2);
        assert_eq!(h.per_step_movements.iter().sum::<u32>(), h.total_movement);
        assert_eq!(h.per_step_movements[0], min_voiced_chord_l1(&h.chords[0], &h.chords[1]));
    }
}

#[test]
fn viterbi_returns_the_k_cheapest_paths() {
    let a = VoicedChord::new([48, 55, 62, 69]).unwrap();
    let b = VoicedChord::new([49, 56, 63, 70]).unwrap();
    let c = VoicedChord::new([50, 57, 64, 71]).unwrap();
    let d = VoicedChord::new([43, 50, 57, 64]).unwrap();
    let layers = vec![vec![a, d], vec![b, c, a], vec![d, c]];
    let mut all: Vec<u32> = Vec::new();
    for x in &layers[0] {
        for y in &layers[1] {
            for z in &layers[2] {
                all.push(min_voiced_chord_l1(x, y) + min_voiced_chord_l1(y, z));
            }
        }
    }
    all.sort();
    for k in 1..=12 {
        let got: Vec<u32> = top_k_viterbi(&layers, k).iter().map(|h| h.total_movement).collect();
        let want: Vec<u32> = all.iter().copied().take(k).collect();
        assert_eq!(got, want);
    }
    let r = top_k_viterbi(&layers, 12);
    for i in 0..r.len() {
        for j in (i + 1)..r.len() {
            assert_ne!(r[i].chords, r[j].chords);
        }
    }
}

#[test]
fn repeated_candidate_gives_distinct_index_paths() {
    let c = VoicedChord::new([60, 67, 74, 81]).unwrap();
    let a = VoicedChord::new([59, 66, 73, 80]).unwrap();
    let b = VoicedChord::new([48, 55, 62, 69]).unwrap();
    assert!(min_voiced_chord_l1(&a, &c) < min_voiced_chord_l1(&b, &c));
    let layers = vec![vec![a, b, b], vec![c]];
    let results = top_k_viterbi(&layers, 2);
    assert_eq!(results.len(), 2);
    assert_eq!(results[0].chords, vec![a, c]);
    assert_eq!(results[1].chords, vec![b, c]);
    let all = top_k_viterbi(&layers, 5);
    assert_eq!(all.len(), 3);
    assert_eq!(all[1].chords, all[2].chords);
}

#[test]
fn voice_leading_distance_is_symmetric() {
    let a = VoicedChord::new([48, 55, 62, 69]).unwrap();
    let b = VoicedChord::new([50, 57, 67, 72]).unwrap();
    assert_eq!(min_voiced_chord_l1(&a, &b), min_voiced_chord_l1(&b, &a));
    assert!(min_voiced_chord_l1(&a, &b) <= 12);
}

#[test]
fn ascending_voicings_match_by_position() {
    let a = VoicedChord::new([48, 55, 62, 69]).unwrap();
    let b = VoicedChord::new([50, 57, 67, 72]).unwrap();
    assert_eq!(min_voiced_chord_l1(&a, &b), music_comp_mt::quintal::l1_distance(&a, &b));
}

#[test]
fn equal_costs_keep_the_earlier_candidate_first() {
    let c = VoicedChord::new([60, 67, 74, 81]).unwrap();
    let a = VoicedChord::new([59, 66, 73, 80]).unwrap();
    let b = VoicedChord::new([61, 68, 75, 82]).unwrap();
    assert_eq!(min_voiced_chord_l1(&a, &c), min_voiced_chord_l1(&b, &c));
    let results = top_k_viterbi(&vec![vec![b, a], vec![c]], 2);
    assert_eq!(results[0].chords, vec![b, c]);
    assert_eq!(results[1].chords, vec![a, c]);
    let one = top_k_viterbi(&vec![vec![b, a], vec![c]], 1);
    assert_eq!(one[0].chords, vec![b, c]);
}

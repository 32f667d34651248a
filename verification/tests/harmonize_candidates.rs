use music_comp_mt::harmonize::{shift_to_top, HarmonizeError};
use music_comp_mt::quintal::VoicedChord;

#[test]
fn test_shift_identity() {
    let c = VoicedChord::new([48, 55, 62, 69]).unwrap();
    let result = shift_to_top(&c, 69, 0).unwrap();
    println!("identity: input={:?}, target=69, output={:?}", c.pitches, result.pitches);
    assert_eq!(result.pitches, c.pitches);
}

#[test]
fn test_shift_octave_up() {
    let c = VoicedChord::new([48, 55, 62, 69]).unwrap();
    let result = shift_to_top(&c, 81, 0).unwrap();
    println!("octave_up: input={:?}, target=81, output={:?}", c.pitches, result.pitches);
    assert_eq!(result.pitches, [60, 67, 74, 81]);
}

#[test]
fn test_shift_octave_down() {
    let c = VoicedChord::new([48, 55, 62, 69]).unwrap();
    let result = shift_to_top(&c, 57, 0).unwrap();
    println!("octave_down: input={:?}, target=57, output={:?}", c.pitches, result.pitches);
    assert_eq!(result.pitches, [36, 43, 50, 57]);
}

#[test]
fn test_shift_underflow() {
    let c = VoicedChord::new([48, 55, 62, 69]).unwrap();
    let result = shift_to_top(&c, 9, 3);
    println!("underflow: input={:?}, target=9, result={:?}", c.pitches, result);
    assert!(matches!(
        result,
        Err(HarmonizeError::TargetMidiOutOfRange { position: 3, target_midi: 9 })
    ));
}

#[test]
fn test_overflow_unreachable_for_u8_target() {
    let c = VoicedChord::new([48, 55, 62, 69]).unwrap();
    assert!(shift_to_top(&c, 117, 0).is_ok());
}

#[test]
fn test_shift_result_is_ascending() {
    let c = VoicedChord::new([36, 43, 50, 57]).unwrap();
    let result = shift_to_top(&c, 69, 0).unwrap();
    println!("ascending: input={:?}, target=69, output={:?}", c.pitches, result.pitches);
    assert!(result.pitches[0] < result.pitches[1]);
    assert!(result.pitches[1] < result.pitches[2]);
    assert!(result.pitches[2] < result.pitches[3]);
    assert_eq!(result.pitches[3], 69);
}

#[test]
fn shift_moves_every_voice_by_the_same_delta() {
    let c = VoicedChord::new([40, 47, 54, 61]).unwrap();
    let r = shift_to_top(&c, 73, 0).unwrap();
    assert_eq!(r.pitches, [52, 59, 66, 73]);
}

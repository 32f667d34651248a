use music_comp_mt::note::PitchSymbol::{A, C, Cs, D, Db, E, F, Fs, G};
use music_comp_mt::note::{parse_midi_pitch, Note, NoteError, Pitch};

#[test]
fn test_parse_midi_pitch_basic() {
    assert_eq!(parse_midi_pitch("C4").unwrap(), 60);
    assert_eq!(parse_midi_pitch("A4").unwrap(), 69);
    assert_eq!(parse_midi_pitch("C0").unwrap(), 12);
    assert_eq!(parse_midi_pitch("C-1").unwrap(), 0);
    assert_eq!(parse_midi_pitch("C9").unwrap(), 120);
    assert_eq!(parse_midi_pitch("G9").unwrap(), 127);
}

#[test]
fn test_parse_midi_pitch_sharps() {
    assert_eq!(parse_midi_pitch("C#3").unwrap(), 49);
    assert_eq!(parse_midi_pitch("F#4").unwrap(), 66);
    assert_eq!(parse_midi_pitch("F#3").unwrap(), 54);
}

#[test]
fn test_parse_midi_pitch_flats_ascii() {
    assert_eq!(parse_midi_pitch("Db3").unwrap(), 49);
    assert_eq!(parse_midi_pitch("Bb3").unwrap(), 58);
}

#[test]
fn test_parse_midi_pitch_flats_unicode() {
    assert_eq!(parse_midi_pitch("B\u{266d}3").unwrap(), 58);
    assert_eq!(parse_midi_pitch("D\u{266d}3").unwrap(), 49);
}

#[test]
fn test_parse_midi_pitch_sharps_unicode() {
    assert_eq!(parse_midi_pitch("C\u{266f}4").unwrap(), 61);
}

#[test]
fn test_parse_midi_pitch_out_of_range() {
    assert!(parse_midi_pitch("C10").is_err());
    assert!(parse_midi_pitch("G#9").is_err());
}

#[test]
fn test_parse_midi_pitch_malformed() {
    assert!(parse_midi_pitch("").is_err());
    assert!(parse_midi_pitch("X3").is_err());
    assert!(parse_midi_pitch("C").is_err());
    assert!(parse_midi_pitch("3C").is_err());
}

#[test]
fn parse_midi_pitch_trims_whitespace() {
    assert_eq!(parse_midi_pitch("  C4 \t").unwrap(), 60);
    assert_eq!(parse_midi_pitch("\u{2003}A4\n").unwrap(), 69);
}

#[test]
fn parse_midi_pitch_error_is_invalid_pitch() {
    assert!(matches!(parse_midi_pitch("H4"), Err(NoteError::InvalidPitch)));
    assert!(matches!(parse_midi_pitch("C-2"), Err(NoteError::InvalidPitch)));
}

#[test]
fn midi_pitch_middle_c() {
    let note = Note::new(Pitch::from(C), 4);
    assert_eq!(note.midi_pitch(), 60);
}

#[test]
fn midi_pitch_a440() {
    let note = Note::new(Pitch::from(A), 4);
    assert_eq!(note.midi_pitch(), 69);
}

#[test]
fn midi_pitch_octaves() {
    assert_eq!(Note::new(Pitch::from(C), 0).midi_pitch(), 12);
    assert_eq!(Note::new(Pitch::from(C), 1).midi_pitch(), 24);
    assert_eq!(Note::new(Pitch::from(C), 2).midi_pitch(), 36);
    assert_eq!(Note::new(Pitch::from(C), 3).midi_pitch(), 48);
    assert_eq!(Note::new(Pitch::from(C), 5).midi_pitch(), 72);
}

#[test]
fn midi_pitch_accidentals() {
    assert_eq!(Note::new(Pitch::from(Cs), 4).midi_pitch(), 61);
    assert_eq!(Note::new(Pitch::from(Db), 4).midi_pitch(), 61);
    assert_eq!(Note::new(Pitch::from(Fs), 4).midi_pitch(), 66);
}

#[test]
fn midi_pitch_clamps_to_127() {
    let note = Note::new(Pitch::from(G), 10);
    assert!(note.midi_pitch() <= 127);
}

#[test]
fn format_note_list_numbers_each_note() {
    let notes = vec![Note::new(Pitch::from(C), 4), Note::new(Pitch::from(Fs), 4), Note::new(Pitch::from(Db), 5)];
    assert_eq!(music_comp_mt::note::format_note_list(&notes), "Notes:\n  1: C\n  2: F#\n  3: Db\n");
}

#[test]
fn note_shows_its_pitch() {
    assert_eq!(Note::new(Pitch::from(Fs), 3).to_string(), "F#");
    assert_eq!(Note::new(Pitch::from(Db), 5).to_string(), "Db");
}

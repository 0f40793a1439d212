use notelang::music::{compile_to_events, CompileError, MusicSheet, ResolutionError};
use notelang::token::LexErrorKind;

#[test]
fn new_sheet_has_the_default_tempo_and_no_notes() {
    let sheet = MusicSheet::new();
    assert_eq!(sheet.bpm().mantissa, 120);
    assert_eq!(sheet.bpm().scale, 0);
    assert!(sheet.notes().is_empty());
}

#[test]
fn read_takes_tempo_and_notes_from_the_program() {
    let sheet = MusicSheet::read("BPM 100\nMusicSheet = { Note(C4, 1), Note(E4, 0.5) }\nPlay")
        .unwrap();
    assert_eq!(sheet.bpm().mantissa, 100);
    assert_eq!(sheet.notes().len(), 2);
    assert_eq!(sheet.notes()[0].note, "C4");
    assert_eq!(sheet.notes()[1].note, "E4");
}

#[test]
fn read_defaults_the_tempo_to_120() {
    let sheet = MusicSheet::read("MusicSheet = { Note(A4) }").unwrap();
    assert_eq!(sheet.bpm().mantissa, 120);
    assert_eq!(sheet.bpm().scale, 0);
}

#[test]
fn later_tempo_and_sheet_declarations_win() {
    let sheet = MusicSheet::read(
        "BPM 100\nMusicSheet = { Note(C4) }\nBPM 90\nMusicSheet = { Note(A4), Note(B4) }",
    )
        .unwrap();
    assert_eq!(sheet.bpm().mantissa, 90);
    assert_eq!(sheet.notes().len(), 2);
    assert_eq!(sheet.notes()[0].note, "A4");
}

#[test]
fn a_tempo_after_the_sheet_still_applies() {
    let sheet = MusicSheet::read("MusicSheet = { Note(A4) }\nBPM 60").unwrap();
    assert_eq!(sheet.bpm().mantissa, 60);
    assert_eq!(sheet.notes().len(), 1);
}

#[test]
fn compile_resolves_each_note_in_order() {
    let events = compile_to_events("BPM 120\nMusicSheet = { Note(A4, 1), Note(C4, 0.5) }\nPlay")
        .unwrap();
    assert_eq!(events.len(), 2);
    assert_eq!(events[0].semitones, 0);
    assert_eq!(events[0].duration.num as f64 / events[0].duration.den as f64, 0.5);
    assert_eq!(events[1].semitones, -9);
    assert_eq!(events[1].duration.num as f64 / events[1].duration.den as f64, 0.25);
}

#[test]
fn compile_surfaces_a_lex_error() {
    let e = compile_to_events("BPM 100 $").unwrap_err();
    match e {
        CompileError::Lex(le) => {
            assert_eq!(le.ch, '$');
            assert_eq!(le.kind, LexErrorKind::UnrecognizedChar);
        },
        other => panic!("expected a lex error, got {:?}", other),
    }
}

#[test]
fn compile_surfaces_a_parse_error() {
    let e = compile_to_events("MusicSheet = Note(A4)").unwrap_err();
    assert!(matches!(e, CompileError::Parse(_)));
}

#[test]
fn compile_surfaces_an_unknown_note_name() {
    let e = compile_to_events("MusicSheet = { Note(B#4) }").unwrap_err();
    assert!(matches!(e, CompileError::Resolution(ResolutionError::UnknownNoteName)));
}

#[test]
fn compile_rejects_a_zero_tempo_with_notes() {
    let e = compile_to_events("BPM 0\nMusicSheet = { Note(A4) }").unwrap_err();
    assert!(matches!(e, CompileError::Resolution(ResolutionError::NonPositiveTempo)));
}

#[test]
fn compile_of_an_empty_sheet_yields_no_events() {
    let events = compile_to_events("BPM 0\nMusicSheet = { }\nPlay").unwrap();
    assert!(events.is_empty());
}

#[test]
fn compiled_durations_follow_the_tempo() {
    let sheet = MusicSheet::read("BPM 60\nMusicSheet = { Note(A4, 3) }").unwrap();
    let r = sheet.calc_note_duration(&sheet.notes()[0].duration).unwrap();
    assert_eq!(r.num as f64 / r.den as f64, 3.0);
}

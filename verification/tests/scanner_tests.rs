use notelang::scanner::tokenize;
use notelang::token::{LexErrorKind, TokenType};

#[test]
fn empty_source_scans_to_eof_only() {
    let toks = tokenize("").unwrap();
    assert_eq!(toks.len(), 1);
    assert!(matches!(toks[0], TokenType::EOF));
}

#[test]
fn full_program_scans_to_expected_tokens() {
    let toks = tokenize("BPM 100\nMusicSheet = { Note(C4, 1), Note(E4, 0.5) }\nPlay").unwrap();
    assert_eq!(toks.len(), 21);
    assert!(matches!(toks[0], TokenType::Bpm));
    assert!(matches!(&toks[1], TokenType::Number(d) if d.mantissa == 100 && d.scale == 0));
    assert!(matches!(toks[2], TokenType::MusicSheet));
    assert!(matches!(toks[3], TokenType::AssignExpr));
    assert!(matches!(toks[4], TokenType::OpenBrace));
    assert!(matches!(&toks[5], TokenType::Identifier(s) if s == "Note"));
    assert!(matches!(toks[6], TokenType::OpenParen));
    assert!(matches!(&toks[7], TokenType::Pitch(p) if p == "C4"));
    assert!(matches!(toks[8], TokenType::Comma));
    assert!(matches!(&toks[9], TokenType::Number(d) if d.mantissa == 1 && d.scale == 0));
    assert!(matches!(toks[10], TokenType::CloseParen));
    assert!(matches!(toks[11], TokenType::Comma));
    assert!(matches!(&toks[12], TokenType::Identifier(s) if s == "Note"));
    assert!(matches!(toks[13], TokenType::OpenParen));
    assert!(matches!(&toks[14], TokenType::Pitch(p) if p == "E4"));
    assert!(matches!(toks[15], TokenType::Comma));
    assert!(matches!(&toks[16], TokenType::Number(d) if d.mantissa == 5 && d.scale == 1));
    assert!(matches!(toks[17], TokenType::CloseParen));
    assert!(matches!(toks[18], TokenType::CloseBrace));
    assert!(matches!(toks[19], TokenType::Play));
    assert!(matches!(toks[20], TokenType::EOF));
}

#[test]
fn unrecognized_character_is_a_lex_error() {
    let e = tokenize("BPM 100 @").unwrap_err();
    assert_eq!(e.ch, '@');
    assert_eq!(e.line, 1);
    assert_eq!(e.kind, LexErrorKind::UnrecognizedChar);
}

#[test]
fn lex_error_reports_the_line_of_the_character() {
    let e = tokenize("BPM 100\nMusicSheet = {\n  !\n}").unwrap_err();
    assert_eq!(e.ch, '!');
    assert_eq!(e.line, 3);
    assert_eq!(e.kind, LexErrorKind::UnrecognizedChar);
}

#[test]
fn number_with_two_decimal_points_is_a_lex_error() {
    let e = tokenize("BPM 1.2.3").unwrap_err();
    assert_eq!(e.ch, '.');
    assert_eq!(e.kind, LexErrorKind::MalformedNumber);
}

#[test]
fn number_with_nineteen_digits_is_a_lex_error() {
    let e = tokenize("BPM 1234567890123456789").unwrap_err();
    assert_eq!(e.ch, '1');
    assert_eq!(e.kind, LexErrorKind::NumberTooLong);
}

#[test]
fn number_with_eighteen_digits_scans() {
    let toks = tokenize("123456789012345678").unwrap();
    assert!(
        matches!(&toks[0], TokenType::Number(d) if d.mantissa == 123456789012345678 && d.scale == 0)
    );
}

#[test]
fn trailing_decimal_point_scans_as_whole_number() {
    let toks = tokenize("1.").unwrap();
    assert!(matches!(&toks[0], TokenType::Number(d) if d.mantissa == 1 && d.scale == 0));
}

#[test]
fn leading_zeros_and_trailing_fraction_digits_are_kept_in_the_scale() {
    let toks = tokenize("00.50").unwrap();
    assert!(matches!(&toks[0], TokenType::Number(d) if d.mantissa == 50 && d.scale == 2));
}

#[test]
fn pitch_shapes_and_identifiers_are_told_apart() {
    let toks = tokenize("C4 F#3 Bb5 C9 b4 Notes H2").unwrap();
    assert!(matches!(&toks[0], TokenType::Pitch(p) if p == "C4"));
    assert!(matches!(&toks[1], TokenType::Pitch(p) if p == "F#3"));
    assert!(matches!(&toks[2], TokenType::Pitch(p) if p == "Bb5"));
    // octave digits stop at 8, so C9 is only an identifier
    assert!(matches!(&toks[3], TokenType::Identifier(s) if s == "C9"));
    // a lowercase letter cannot open a pitch
    assert!(matches!(&toks[4], TokenType::Identifier(s) if s == "b4"));
    assert!(matches!(&toks[5], TokenType::Identifier(s) if s == "Notes"));
    assert!(matches!(&toks[6], TokenType::Identifier(s) if s == "H2"));
}

#[test]
fn punctuation_scans_one_to_one() {
    let toks = tokenize(", = ( ) { } ;").unwrap();
    assert!(matches!(toks[0], TokenType::Comma));
    assert!(matches!(toks[1], TokenType::AssignExpr));
    assert!(matches!(toks[2], TokenType::OpenParen));
    assert!(matches!(toks[3], TokenType::CloseParen));
    assert!(matches!(toks[4], TokenType::OpenBrace));
    assert!(matches!(toks[5], TokenType::CloseBrace));
    assert!(matches!(toks[6], TokenType::Semicolon));
    assert!(matches!(toks[7], TokenType::EOF));
}

#[test]
fn keywords_are_classified_before_identifiers() {
    let toks = tokenize("BPM Play MusicSheet BPm plays").unwrap();
    assert!(matches!(toks[0], TokenType::Bpm));
    assert!(matches!(toks[1], TokenType::Play));
    assert!(matches!(toks[2], TokenType::MusicSheet));
    assert!(matches!(&toks[3], TokenType::Identifier(s) if s == "BPm"));
    assert!(matches!(&toks[4], TokenType::Identifier(s) if s == "plays"));
}

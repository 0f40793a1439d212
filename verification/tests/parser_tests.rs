use notelang::ast::AstNode;
use notelang::music::{CompileError, MusicSheet};
use notelang::parser::Parser;
use notelang::scanner::tokenize;
use notelang::token::TokenType;

fn parse(source: &str) -> Result<Vec<AstNode>, CompileError> {
    MusicSheet::parse_music_file(source)
}

#[test]
fn round_trip_of_the_reference_program() {
    let nodes = parse("BPM 100\nMusicSheet = { Note(C4, 1), Note(E4, 0.5) }\nPlay").unwrap();
    assert_eq!(nodes.len(), 3);
    assert!(matches!(&nodes[0], AstNode::Bpm(d) if d.mantissa == 100 && d.scale == 0));
    match &nodes[1] {
        AstNode::MusicSheet { notes } => {
            assert_eq!(notes.len(), 2);
            assert_eq!(notes[0].note, "C4");
            assert_eq!(notes[0].duration.mantissa, 1);
            assert_eq!(notes[0].duration.scale, 0);
            assert_eq!(notes[1].note, "E4");
            assert_eq!(notes[1].duration.mantissa, 5);
            assert_eq!(notes[1].duration.scale, 1);
        },
        other => panic!("expected a note sheet, got {:?}", other),
    }
    assert!(matches!(&nodes[2], AstNode::PlayKeyword));
}

#[test]
fn empty_note_list_parses_to_zero_entries() {
    let nodes = parse("MusicSheet = { }").unwrap();
    assert_eq!(nodes.len(), 1);
    match &nodes[0] {
        AstNode::MusicSheet { notes } => assert_eq!(notes.len(), 0),
        other => panic!("expected a note sheet, got {:?}", other),
    }
}

#[test]
fn trailing_comma_is_rejected() {
    let e = parse("MusicSheet = { Note(C4, 1), }").unwrap_err();
    match e {
        CompileError::Parse(pe) => {
            assert!(matches!(pe.found, TokenType::CloseBrace));
        },
        other => panic!("expected a parse error, got {:?}", other),
    }
}

#[test]
fn missing_closing_brace_reports_end_of_input() {
    let e = parse("MusicSheet = { Note(C4, 1)").unwrap_err();
    match e {
        CompileError::Parse(pe) => {
            assert!(matches!(pe.found, TokenType::EOF));
        },
        other => panic!("expected a parse error, got {:?}", other),
    }
}

#[test]
fn note_without_duration_defaults_to_one_beat() {
    let nodes = parse("MusicSheet = { Note(A4) }").unwrap();
    match &nodes[0] {
        AstNode::MusicSheet { notes } => {
            assert_eq!(notes.len(), 1);
            assert_eq!(notes[0].note, "A4");
            assert_eq!(notes[0].duration.mantissa, 1);
            assert_eq!(notes[0].duration.scale, 0);
        },
        other => panic!("expected a note sheet, got {:?}", other),
    }
}

#[test]
fn comma_without_duration_inside_note_is_rejected() {
    let e = parse("MusicSheet = { Note(A4,) }").unwrap_err();
    match e {
        CompileError::Parse(pe) => assert!(matches!(pe.found, TokenType::CloseParen)),
        other => panic!("expected a parse error, got {:?}", other),
    }
}

#[test]
fn number_at_statement_level_is_rejected() {
    let e = parse("42").unwrap_err();
    match e {
        CompileError::Parse(pe) => {
            assert!(matches!(pe.found, TokenType::Number(d) if d.mantissa == 42))
        },
        other => panic!("expected a parse error, got {:?}", other),
    }
}

#[test]
fn semicolon_at_statement_level_is_rejected() {
    let e = parse("Play;").unwrap_err();
    match e {
        CompileError::Parse(pe) => assert!(matches!(pe.found, TokenType::Semicolon)),
        other => panic!("expected a parse error, got {:?}", other),
    }
}

#[test]
fn bpm_without_number_is_rejected() {
    let e = parse("BPM Play").unwrap_err();
    match e {
        CompileError::Parse(pe) => assert!(matches!(pe.found, TokenType::Play)),
        other => panic!("expected a parse error, got {:?}", other),
    }
}

#[test]
fn note_must_open_with_the_note_identifier() {
    let e = parse("MusicSheet = { C4 }").unwrap_err();
    match e {
        CompileError::Parse(pe) => assert!(matches!(pe.found, TokenType::Pitch(p) if p == "C4")),
        other => panic!("expected a parse error, got {:?}", other),
    }
}

#[test]
fn parser_parses_a_bpm_statement_directly() {
    let tokens = tokenize("BPM 90").unwrap();
    let mut parser = Parser::new(tokens);
    let node = parser.parse_bpm().unwrap();
    assert!(matches!(node, AstNode::Bpm(d) if d.mantissa == 90 && d.scale == 0));
}

#[test]
fn parse_bpm_on_a_wrong_leading_token_is_rejected() {
    let tokens = tokenize("Play").unwrap();
    let mut parser = Parser::new(tokens);
    let e = parser.parse_bpm().unwrap_err();
    assert!(matches!(e.found, TokenType::Play));
}

#[test]
fn empty_program_parses_to_no_statements() {
    let nodes = parse("").unwrap();
    assert_eq!(nodes.len(), 0);
}

#[test]
fn statements_keep_their_source_order() {
    let nodes = parse("Play\nBPM 80\nMusicSheet = { }\nBPM 90").unwrap();
    assert_eq!(nodes.len(), 4);
    assert!(matches!(&nodes[0], AstNode::PlayKeyword));
    assert!(matches!(&nodes[1], AstNode::Bpm(d) if d.mantissa == 80));
    assert!(matches!(&nodes[2], AstNode::MusicSheet { notes } if notes.is_empty()));
    assert!(matches!(&nodes[3], AstNode::Bpm(d) if d.mantissa == 90));
}

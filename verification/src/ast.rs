//! The abstract syntax tree the parser produces, and the parse failure type.

use vstd::prelude::*;

use crate::token::{dec_wf, Decimal, Tok, TokenType};

verus! {

/// One entry of a note sheet: a pitch string and a duration multiplier in
/// beats (1 is one beat; a note written without a multiplier gets 1).
#[derive(Debug)]
pub struct Note {
    pub note: String,
    pub duration: Decimal,
}

/// The mathematical model of a note entry.
pub ghost struct NoteV {
    pub pitch: Seq<char>,
    pub duration: Decimal,
}

impl View for Note {
    type V = NoteV;

    open spec fn view(&self) -> NoteV {
        NoteV { pitch: self.note@, duration: self.duration }
    }
}

/// The model of a sequence of note entries.
pub open spec fn notes_view(v: Seq<Note>) -> Seq<NoteV> {
    v.map_values(|n: Note| n@)
}

/// A top-level statement of a program: a note sheet, a tempo declaration,
/// or a playback directive.
#[derive(Debug)]
pub enum AstNode {
    MusicSheet { notes: Vec<Note> },
    Bpm(Decimal),
    PlayKeyword,
}

/// The mathematical model of a statement.
pub ghost enum AstV {
    MusicSheet(Seq<NoteV>),
    Bpm(Decimal),
    Play,
}

impl View for AstNode {
    type V = AstV;

    open spec fn view(&self) -> AstV {
        match self {
            AstNode::MusicSheet { notes } => AstV::MusicSheet(notes_view(notes@)),
            AstNode::Bpm(d) => AstV::Bpm(*d),
            AstNode::PlayKeyword => AstV::Play,
        }
    }
}

/// The model of a sequence of statements.
pub open spec fn nodes_view(v: Seq<AstNode>) -> Seq<AstV> {
    v.map_values(|n: AstNode| n@)
}

/// Whether a note entry's duration is a decimal the scanner can produce.
pub open spec fn notev_wf(n: NoteV) -> bool {
    dec_wf(n.duration)
}

/// Whether every duration in a sequence of note entries is such a decimal.
pub open spec fn notevs_wf(ns: Seq<NoteV>) -> bool {
    forall|k: int| 0 <= k < ns.len() ==> #[trigger] notev_wf(ns[k])
}

/// Whether every decimal in a statement is one the scanner can produce.
pub open spec fn astv_wf(a: AstV) -> bool {
    match a {
        AstV::MusicSheet(ns) => notevs_wf(ns),
        AstV::Bpm(d) => dec_wf(d),
        AstV::Play => true,
    }
}

/// Whether every decimal in a sequence of statements is such a decimal.
pub open spec fn astvs_wf(s: Seq<AstV>) -> bool {
    forall|k: int| 0 <= k < s.len() ==> #[trigger] astv_wf(s[k])
}

/// A syntactic failure: the token sequence does not match the grammar.
///
/// `found` is the offending token; when the failure is that the input ended
/// too early, it is the `EOF` sentinel.  Parsing stops at the first failure
/// and no partial syntax tree is returned.
#[derive(Debug)]
pub struct ParseError {
    pub found: TokenType,
}

/// The mathematical model of a syntactic failure.
pub ghost struct ParseErr {
    pub found: Tok,
}

impl View for ParseError {
    type V = ParseErr;

    open spec fn view(&self) -> ParseErr {
        ParseErr { found: self.found@ }
    }
}

} // verus!

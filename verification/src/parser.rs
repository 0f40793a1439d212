//! The recursive-descent parser: one token of lookahead, no backtracking.
//!
//! The grammar, with the token kinds of [`crate::token::TokenType`] as its
//! terminals (`"Note"` is an identifier token holding that text):
//!
//! ```text
//! Program   := Statement* EOF
//! Statement := TempoStmt | SheetStmt | PlayStmt
//! TempoStmt := Bpm Number
//! SheetStmt := MusicSheet AssignExpr OpenBrace NoteList? CloseBrace
//! NoteList  := NoteEntry (Comma NoteEntry)*
//! NoteEntry := "Note" OpenParen Pitch (Comma Number)? CloseParen
//! PlayStmt  := Play
//! ```
//!
//! A comma inside a note list must be followed by another entry, so a
//! trailing comma before the closing brace is a parse failure.  An empty
//! note list is valid.  The spec functions below are the functional model
//! of the grammar; the methods of [`Parser`] are proved to return exactly
//! what the model says.

use vstd::prelude::*;

use crate::ast::{
    astv_wf, astvs_wf, nodes_view, notes_view, notev_wf, notevs_wf, AstNode, AstV, Note, NoteV,
    ParseErr, ParseError,
};
use crate::token::{
    dec_wf, lemma_pow10_18, tok_num_wf, toks_view, toks_wf, Decimal, Tok, TokenType,
};

verus! {

/// The token at position `i`, with the `EOF` sentinel standing in for any
/// position past the end (so a failure on exhausted input reports
/// end-of-input).
pub open spec fn tok_at(ts: Seq<Tok>, i: int) -> Tok {
    if 0 <= i < ts.len() {
        ts[i]
    } else {
        Tok::EOF
    }
}

/// The text of the identifier that opens a note entry.
pub open spec fn is_note_kw(q: Seq<char>) -> bool {
    q.len() == 4 && q[0] == 'N' && q[1] == 'o' && q[2] == 't' && q[3] == 'e'
}

/// The duration multiplier of a note written without one: a single beat.
pub open spec fn default_duration() -> Decimal {
    Decimal { mantissa: 1, scale: 0 }
}

/// The model of `NoteEntry`: the note parsed at position `i` and the
/// position just past it, or the offending token.
pub open spec fn parse_note_spec(ts: Seq<Tok>, i: int) -> Result<(NoteV, int), ParseErr> {
    if !(tok_at(ts, i) matches Tok::Identifier(q) && is_note_kw(q)) {
        Err(ParseErr { found: tok_at(ts, i) })
    } else if tok_at(ts, i + 1) != Tok::OpenParen {
        Err(ParseErr { found: tok_at(ts, i + 1) })
    } else {
        match tok_at(ts, i + 2) {
            Tok::Pitch(p) => match tok_at(ts, i + 3) {
                Tok::CloseParen => Ok(
                    (NoteV { pitch: p, duration: default_duration() }, i + 4),
                ),
                Tok::Comma => match tok_at(ts, i + 4) {
                    Tok::Number(d) => if tok_at(ts, i + 5) == Tok::CloseParen {
                        Ok((NoteV { pitch: p, duration: d }, i + 6))
                    } else {
                        Err(ParseErr { found: tok_at(ts, i + 5) })
                    },
                    t => Err(ParseErr { found: t }),
                },
                t => Err(ParseErr { found: t }),
            },
            t => Err(ParseErr { found: t }),
        }
    }
}

pub proof fn lemma_parse_note_bounds(ts: Seq<Tok>, i: int)
    ensures
        parse_note_spec(ts, i) matches Ok(p) ==> 0 <= i && i + 4 <= p.1 <= ts.len(),
{
}

/// The model of `NoteList` followed by its closing brace: the notes in
/// `acc` extended with those parsed from position `i` on, and the position
/// just past the closing brace.
pub open spec fn parse_notes_spec(ts: Seq<Tok>, i: int, acc: Seq<NoteV>) -> Result<
    (Seq<NoteV>, int),
    ParseErr,
>
    decreases ts.len() - i,
    via parse_notes_spec_decreases
{
    match parse_note_spec(ts, i) {
        Err(e) => Err(e),
        Ok((n, j)) => {
            let t = tok_at(ts, j);
            if t == Tok::CloseBrace {
                Ok((acc.push(n), j + 1))
            } else if t == Tok::Comma {
                parse_notes_spec(ts, j + 1, acc.push(n))
            } else {
                Err(ParseErr { found: t })
            }
        },
    }
}

#[via_fn]
proof fn parse_notes_spec_decreases(ts: Seq<Tok>, i: int, acc: Seq<NoteV>) {
    lemma_parse_note_bounds(ts, i);
}

pub proof fn lemma_parse_notes_bounds(ts: Seq<Tok>, i: int, acc: Seq<NoteV>)
    ensures
        parse_notes_spec(ts, i, acc) matches Ok(p) ==> 0 <= i && i + 5 <= p.1 <= ts.len(),
    decreases ts.len() - i,
{
    lemma_parse_note_bounds(ts, i);
    match parse_note_spec(ts, i) {
        Ok((n, j)) => {
            if tok_at(ts, j) == Tok::Comma {
                lemma_parse_notes_bounds(ts, j + 1, acc.push(n));
            }
        },
        Err(_) => {},
    }
}

/// The model of `TempoStmt`: the tempo parsed at position `i` and the
/// position just past it, or the offending token.
pub open spec fn parse_bpm_spec(ts: Seq<Tok>, i: int) -> Result<(Decimal, int), ParseErr> {
    if tok_at(ts, i) != Tok::Bpm {
        Err(ParseErr { found: tok_at(ts, i) })
    } else {
        match tok_at(ts, i + 1) {
            Tok::Number(d) => Ok((d, i + 2)),
            t => Err(ParseErr { found: t }),
        }
    }
}

pub proof fn lemma_parse_bpm_bounds(ts: Seq<Tok>, i: int)
    ensures
        parse_bpm_spec(ts, i) matches Ok(p) ==> 0 <= i && p.1 == i + 2 && p.1 <= ts.len(),
{
}

/// The model of `SheetStmt`: the note entries between the braces and the
/// position just past the closing brace, or the offending token.
pub open spec fn parse_sheet_spec(ts: Seq<Tok>, i: int) -> Result<(Seq<NoteV>, int), ParseErr> {
    if tok_at(ts, i) != Tok::MusicSheet {
        Err(ParseErr { found: tok_at(ts, i) })
    } else if tok_at(ts, i + 1) != Tok::AssignExpr {
        Err(ParseErr { found: tok_at(ts, i + 1) })
    } else if tok_at(ts, i + 2) != Tok::OpenBrace {
        Err(ParseErr { found: tok_at(ts, i + 2) })
    } else if tok_at(ts, i + 3) == Tok::CloseBrace {
        Ok((Seq::empty(), i + 4))
    } else {
        parse_notes_spec(ts, i + 3, Seq::empty())
    }
}

pub proof fn lemma_parse_sheet_bounds(ts: Seq<Tok>, i: int)
    ensures
        parse_sheet_spec(ts, i) matches Ok(p) ==> 0 <= i && i + 4 <= p.1 <= ts.len(),
{
    if tok_at(ts, i) == Tok::MusicSheet && tok_at(ts, i + 1) == Tok::AssignExpr && tok_at(
        ts,
        i + 2,
    ) == Tok::OpenBrace && tok_at(ts, i + 3) != Tok::CloseBrace {
        lemma_parse_notes_bounds(ts, i + 3, Seq::empty());
    }
}

/// The model of a whole program: the statements in `acc` extended with
/// those parsed from position `i` to the end of the input, or the first
/// offending token.  A whole parse is `parse_program_spec(ts, 0,
/// Seq::empty())`.
pub open spec fn parse_program_spec(ts: Seq<Tok>, i: int, acc: Seq<AstV>) -> Result<
    Seq<AstV>,
    ParseErr,
>
    decreases ts.len() - i,
    via parse_program_spec_decreases
{
    let t = tok_at(ts, i);
    if t == Tok::EOF {
        Ok(acc)
    } else if t == Tok::Bpm {
        match parse_bpm_spec(ts, i) {
            Ok((d, j)) => parse_program_spec(ts, j, acc.push(AstV::Bpm(d))),
            Err(e) => Err(e),
        }
    } else if t == Tok::MusicSheet {
        match parse_sheet_spec(ts, i) {
            Ok((ns, j)) => parse_program_spec(ts, j, acc.push(AstV::MusicSheet(ns))),
            Err(e) => Err(e),
        }
    } else if t == Tok::Play {
        parse_program_spec(ts, i + 1, acc.push(AstV::Play))
    } else {
        Err(ParseErr { found: t })
    }
}

#[via_fn]
proof fn parse_program_spec_decreases(ts: Seq<Tok>, i: int, acc: Seq<AstV>) {
    lemma_parse_bpm_bounds(ts, i);
    lemma_parse_sheet_bounds(ts, i);
}

pub proof fn lemma_parse_note_wf(ts: Seq<Tok>, i: int)
    requires
        toks_wf(ts),
    ensures
        parse_note_spec(ts, i) matches Ok(p) ==> notev_wf(p.0),
{
    lemma_pow10_18();
    if 0 <= i + 4 < ts.len() {
        assert(tok_num_wf(ts[i + 4]));
    }
}

pub proof fn lemma_parse_notes_wf(ts: Seq<Tok>, i: int, acc: Seq<NoteV>)
    requires
        toks_wf(ts),
        notevs_wf(acc),
    ensures
        parse_notes_spec(ts, i, acc) matches Ok(p) ==> notevs_wf(p.0),
    decreases ts.len() - i,
{
    lemma_parse_note_bounds(ts, i);
    lemma_parse_note_wf(ts, i);
    match parse_note_spec(ts, i) {
        Ok((n, j)) => {
            assert(notevs_wf(acc.push(n))) by {
                assert(forall|k: int|
                    0 <= k < acc.push(n).len() ==> #[trigger] notev_wf(acc.push(n)[k]));
            }
            if tok_at(ts, j) == Tok::Comma {
                lemma_parse_notes_wf(ts, j + 1, acc.push(n));
            }
        },
        Err(_) => {},
    }
}

pub proof fn lemma_parse_sheet_wf(ts: Seq<Tok>, i: int)
    requires
        toks_wf(ts),
    ensures
        parse_sheet_spec(ts, i) matches Ok(p) ==> notevs_wf(p.0),
{
    assert(notevs_wf(Seq::<NoteV>::empty()));
    lemma_parse_notes_wf(ts, i + 3, Seq::empty());
}

pub proof fn lemma_parse_bpm_wf(ts: Seq<Tok>, i: int)
    requires
        toks_wf(ts),
    ensures
        parse_bpm_spec(ts, i) matches Ok(p) ==> dec_wf(p.0),
{
    if 0 <= i + 1 < ts.len() {
        assert(tok_num_wf(ts[i + 1]));
    }
}

/// Every decimal in a parsed program comes from a numeric token, so it is
/// one the scanner can produce.
pub proof fn lemma_parse_program_wf(ts: Seq<Tok>, i: int, acc: Seq<AstV>)
    requires
        toks_wf(ts),
        astvs_wf(acc),
    ensures
        parse_program_spec(ts, i, acc) matches Ok(stmts) ==> astvs_wf(stmts),
    decreases ts.len() - i,
{
    lemma_parse_bpm_bounds(ts, i);
    lemma_parse_sheet_bounds(ts, i);
    lemma_parse_bpm_wf(ts, i);
    lemma_parse_sheet_wf(ts, i);
    let t = tok_at(ts, i);
    if t == Tok::EOF {
    } else if t == Tok::Bpm {
        match parse_bpm_spec(ts, i) {
            Ok((d, j)) => {
                assert(astvs_wf(acc.push(AstV::Bpm(d)))) by {
                    assert(forall|k: int|
                        0 <= k < acc.push(AstV::Bpm(d)).len() ==> #[trigger] astv_wf(
                            acc.push(AstV::Bpm(d))[k],
                        ));
                }
                lemma_parse_program_wf(ts, j, acc.push(AstV::Bpm(d)));
            },
            Err(_) => {},
        }
    } else if t == Tok::MusicSheet {
        match parse_sheet_spec(ts, i) {
            Ok((ns, j)) => {
                assert(astvs_wf(acc.push(AstV::MusicSheet(ns)))) by {
                    assert(forall|k: int|
                        0 <= k < acc.push(AstV::MusicSheet(ns)).len() ==> #[trigger] astv_wf(
                            acc.push(AstV::MusicSheet(ns))[k],
                        ));
                }
                lemma_parse_program_wf(ts, j, acc.push(AstV::MusicSheet(ns)));
            },
            Err(_) => {},
        }
    } else if t == Tok::Play {
        assert(astvs_wf(acc.push(AstV::Play))) by {
            assert(forall|k: int|
                0 <= k < acc.push(AstV::Play).len() ==> #[trigger] astv_wf(
                    acc.push(AstV::Play)[k],
                ));
        }
        lemma_parse_program_wf(ts, i + 1, acc.push(AstV::Play));
    }
}

/// Makes an owned copy of a token.
fn clone_token(t: &TokenType) -> (r: TokenType)
    ensures
        r@ == t@,
{
    match t {
        TokenType::Pitch(s) => TokenType::Pitch(s.clone()),
        TokenType::Play => TokenType::Play,
        TokenType::MusicSheet => TokenType::MusicSheet,
        TokenType::Bpm => TokenType::Bpm,
        TokenType::Number(d) => TokenType::Number(*d),
        TokenType::AssignExpr => TokenType::AssignExpr,
        TokenType::Identifier(s) => TokenType::Identifier(s.clone()),
        TokenType::Comma => TokenType::Comma,
        TokenType::OpenParen => TokenType::OpenParen,
        TokenType::CloseParen => TokenType::CloseParen,
        TokenType::OpenBrace => TokenType::OpenBrace,
        TokenType::CloseBrace => TokenType::CloseBrace,
        TokenType::Semicolon => TokenType::Semicolon,
        TokenType::Invalid => TokenType::Invalid,
        TokenType::EOF => TokenType::EOF,
    }
}

/// Whether a string is the identifier text that opens a note entry.
fn is_note_text(s: &String) -> (b: bool)
    ensures
        b == is_note_kw(s@),
{
    let sl = s.as_str();
    if sl.unicode_len() == 4 {
        sl.get_char(0) == 'N' && sl.get_char(1) == 'o' && sl.get_char(2) == 't' && sl.get_char(3)
            == 'e'
    } else {
        false
    }
}

/// Consumes a token sequence left to right, one token of lookahead.
pub struct Parser {
    tokens: Vec<TokenType>,
    current: usize,
}

impl Parser {
    /// The model of the token sequence being parsed.
    pub closed spec fn toks(&self) -> Seq<Tok> {
        toks_view(self.tokens@)
    }

    /// The position of the next token to consume.
    pub closed spec fn cur(&self) -> int {
        self.current as int
    }

    /// A parser is well formed when its position has not run past the end
    /// of its token sequence.
    pub closed spec fn wf(&self) -> bool {
        self.current <= self.tokens.len()
    }

    pub fn new(tokens: Vec<TokenType>) -> (p: Parser)
        ensures
            p.toks() == toks_view(tokens@),
            p.cur() == 0,
            p.wf(),
    {
        Parser { tokens, current: 0 }
    }

    /// An owned copy of the token at position `k`, with `EOF` standing in
    /// for a position past the end.
    fn found_at(&self, k: usize) -> (t: TokenType)
        ensures
            t@ == tok_at(self.toks(), k as int),
            self.toks().len() == self.tokens@.len(),
            t@ != Tok::EOF ==> k < self.tokens@.len(),
    {
        if k < self.tokens.len() {
            clone_token(&self.tokens[k])
        } else {
            TokenType::EOF
        }
    }

    /// Parses one `NoteEntry` at the current position.
    fn parse_note(&mut self) -> (r: Result<Note, ParseError>)
        ensures
            final(self).toks() == old(self).toks(),
            (parse_note_spec(old(self).toks(), old(self).cur()) matches Ok(p) ==> (r matches Ok(n)
                && n@ == p.0 && final(self).cur() == p.1)),
            (parse_note_spec(old(self).toks(), old(self).cur()) matches Err(e) ==> (r matches Err(
                pe,
            ) && pe@ == e)),
    {
        let tokens_len = self.tokens.len();
        let t0 = self.found_at(self.current);
        match t0 {
            TokenType::Identifier(s) => {
                if !is_note_text(&s) {
                    return Err(ParseError { found: TokenType::Identifier(s) });
                }
            },
            other => {
                return Err(ParseError { found: other });
            },
        }
        self.current = self.current + 1;
        let t1 = self.found_at(self.current);
        match t1 {
            TokenType::OpenParen => {},
            other => {
                return Err(ParseError { found: other });
            },
        }
        self.current = self.current + 1;
        let t2 = self.found_at(self.current);
        let pitch = match t2 {
            TokenType::Pitch(p) => p,
            other => {
                return Err(ParseError { found: other });
            },
        };
        self.current = self.current + 1;
        let t3 = self.found_at(self.current);
        match t3 {
            TokenType::CloseParen => {
                self.current = self.current + 1;
                return Ok(Note { note: pitch, duration: Decimal { mantissa: 1, scale: 0 } });
            },
            TokenType::Comma => {},
            other => {
                return Err(ParseError { found: other });
            },
        }
        self.current = self.current + 1;
        let t4 = self.found_at(self.current);
        let duration = match t4 {
            TokenType::Number(d) => d,
            other => {
                return Err(ParseError { found: other });
            },
        };
        self.current = self.current + 1;
        let t5 = self.found_at(self.current);
        match t5 {
            TokenType::CloseParen => {
                self.current = self.current + 1;
                Ok(Note { note: pitch, duration })
            },
            other => Err(ParseError { found: other }),
        }
    }

    /// Parses one `SheetStmt` at the current position.
    fn parse_music_sheet(&mut self) -> (r: Result<AstNode, ParseError>)
        ensures
            final(self).toks() == old(self).toks(),
            (parse_sheet_spec(old(self).toks(), old(self).cur()) matches Ok(p) ==> (r matches Ok(
                node,
            ) && node@ == AstV::MusicSheet(p.0) && final(self).cur() == p.1)),
            (parse_sheet_spec(old(self).toks(), old(self).cur()) matches Err(e) ==> (r matches Err(
                pe,
            ) && pe@ == e)),
    {
        let ghost ts = self.toks();
        let tokens_len = self.tokens.len();
        let t0 = self.found_at(self.current);
        match t0 {
            TokenType::MusicSheet => {},
            other => {
                return Err(ParseError { found: other });
            },
        }
        self.current = self.current + 1;
        let t1 = self.found_at(self.current);
        match t1 {
            TokenType::AssignExpr => {},
            other => {
                return Err(ParseError { found: other });
            },
        }
        self.current = self.current + 1;
        let t2 = self.found_at(self.current);
        match t2 {
            TokenType::OpenBrace => {},
            other => {
                return Err(ParseError { found: other });
            },
        }
        self.current = self.current + 1;
        let t3 = self.found_at(self.current);
        match t3 {
            TokenType::CloseBrace => {
                self.current = self.current + 1;
                let notes: Vec<Note> = Vec::new();
                proof {
                    assert(notes_view(notes@) =~= Seq::<NoteV>::empty());
                }
                return Ok(AstNode::MusicSheet { notes });
            },
            _ => {},
        }
        let mut notes: Vec<Note> = Vec::new();
        let ghost start = self.cur();
        let ghost target = parse_notes_spec(ts, start, Seq::empty());
        proof {
            assert(notes_view(notes@) =~= Seq::<NoteV>::empty());
        }
        loop
            invariant
                old(self).toks() == ts,
                parse_sheet_spec(ts, old(self).cur()) == target,
                self.toks() == ts,
                self.tokens@.len() <= usize::MAX,
                self.cur() <= ts.len(),
                parse_notes_spec(ts, self.cur(), notes_view(notes@)) == target,
            decreases ts.len() - self.cur(),
        {
            let ghost c0 = self.cur();
            let ghost acc0 = notes_view(notes@);
            proof {
                lemma_parse_note_bounds(ts, c0);
            }
            let note = match self.parse_note() {
                Ok(note) => note,
                Err(e) => {
                    return Err(e);
                },
            };
            notes.push(note);
            proof {
                assert(notes_view(notes@) =~= acc0.push(note@));
            }
            let t = self.found_at(self.current);
            match t {
                TokenType::CloseBrace => {
                    self.current = self.current + 1;
                    return Ok(AstNode::MusicSheet { notes });
                },
                TokenType::Comma => {
                    self.current = self.current + 1;
                },
                other => {
                    return Err(ParseError { found: other });
                },
            }
        }
    }

    /// Parses one `TempoStmt` at the current position.
    pub fn parse_bpm(&mut self) -> (r: Result<AstNode, ParseError>)
        ensures
            final(self).toks() == old(self).toks(),
            (parse_bpm_spec(old(self).toks(), old(self).cur()) matches Ok(p) ==> (r matches Ok(
                node,
            ) && node@ == AstV::Bpm(p.0) && final(self).cur() == p.1)),
            (parse_bpm_spec(old(self).toks(), old(self).cur()) matches Err(e) ==> (r matches Err(
                pe,
            ) && pe@ == e)),
    {
        let tokens_len = self.tokens.len();
        let t0 = self.found_at(self.current);
        match t0 {
            TokenType::Bpm => {},
            other => {
                return Err(ParseError { found: other });
            },
        }
        self.current = self.current + 1;
        let t1 = self.found_at(self.current);
        match t1 {
            TokenType::Number(d) => {
                self.current = self.current + 1;
                Ok(AstNode::Bpm(d))
            },
            other => Err(ParseError { found: other }),
        }
    }

    /// Parses a whole program: statements in source order until the `EOF`
    /// sentinel, stopping at the first failure with no partial result.
    pub fn parse_program(&mut self) -> (r: Result<Vec<AstNode>, ParseError>)
        requires
            old(self).wf(),
        ensures
            final(self).toks() == old(self).toks(),
            (parse_program_spec(old(self).toks(), old(self).cur(), Seq::empty()) matches Ok(stmts)
                ==> (r matches Ok(v) && nodes_view(v@) == stmts)),
            (parse_program_spec(old(self).toks(), old(self).cur(), Seq::empty()) matches Err(e)
                ==> (r matches Err(pe) && pe@ == e)),
    {
        let ghost ts = self.toks();
        let tokens_len = self.tokens.len();
        let ghost target = parse_program_spec(ts, self.cur(), Seq::empty());
        let mut nodes: Vec<AstNode> = Vec::new();
        proof {
            assert(nodes_view(nodes@) =~= Seq::<AstV>::empty());
        }
        loop
            invariant
                old(self).toks() == ts,
                parse_program_spec(ts, old(self).cur(), Seq::empty()) == target,
                self.toks() == ts,
                self.tokens@.len() <= usize::MAX,
                self.cur() <= ts.len(),
                parse_program_spec(ts, self.cur(), nodes_view(nodes@)) == target,
            decreases ts.len() - self.cur(),
        {
            let ghost c0 = self.cur();
            let ghost acc0 = nodes_view(nodes@);
            if self.current >= self.tokens.len() {
                return Ok(nodes);
            }
            let t = self.found_at(self.current);
            match t {
                TokenType::EOF => {
                    return Ok(nodes);
                },
                TokenType::Bpm => {
                    proof {
                        lemma_parse_bpm_bounds(ts, c0);
                    }
                    match self.parse_bpm() {
                        Ok(node) => {
                            nodes.push(node);
                            proof {
                                assert(nodes_view(nodes@) =~= acc0.push(
                                    nodes@[nodes@.len() - 1]@,
                                ));
                            }
                        },
                        Err(e) => {
                            return Err(e);
                        },
                    }
                },
                TokenType::MusicSheet => {
                    proof {
                        lemma_parse_sheet_bounds(ts, c0);
                    }
                    match self.parse_music_sheet() {
                        Ok(node) => {
                            nodes.push(node);
                            proof {
                                assert(nodes_view(nodes@) =~= acc0.push(
                                    nodes@[nodes@.len() - 1]@,
                                ));
                            }
                        },
                        Err(e) => {
                            return Err(e);
                        },
                    }
                },
                TokenType::Play => {
                    self.current = self.current + 1;
                    nodes.push(AstNode::PlayKeyword);
                    proof {
                        assert(nodes_view(nodes@) =~= acc0.push(AstV::Play));
                    }
                },
                other => {
                    return Err(ParseError { found: other });
                },
            }
        }
    }
}

} // verus!

//! Tokens of the music-notation language and the character classes the
//! scanner is built from.

use vstd::prelude::*;

verus! {

/// An exact non-negative decimal number: the value `mantissa / 10^scale`.
///
/// Numeric literals of the language (`100`, `0.5`, `1.`) are carried in this
/// form so that every later computation on them is exact.  The scanner only
/// produces values with `scale <= 18` and `mantissa < 10^18`.
#[derive(Clone, Copy, PartialEq, Eq, Structural, Debug)]
pub struct Decimal {
    pub mantissa: u64,
    pub scale: u32,
}

/// `10^e`.
pub open spec fn pow10(e: int) -> int
    decreases e,
{
    if e <= 0 {
        1
    } else {
        10 * pow10(e - 1)
    }
}

pub proof fn lemma_pow10_18()
    ensures
        pow10(18) == 1000000000000000000,
{
    reveal_with_fuel(pow10, 20);
}

pub proof fn lemma_pow10_pos(a: int)
    ensures
        pow10(a) >= 1,
    decreases a,
{
    if a > 0 {
        lemma_pow10_pos(a - 1);
    }
}

pub proof fn lemma_pow10_mono(a: int, b: int)
    requires
        a <= b,
    ensures
        1 <= pow10(a) <= pow10(b),
    decreases b,
{
    lemma_pow10_pos(a);
    if b > 0 && a < b {
        lemma_pow10_mono(a, b - 1);
    }
}

/// A decimal the scanner can produce: at most eighteen digits in all, so
/// the mantissa is below `10^18` and the scale at most 18.
pub open spec fn dec_wf(d: Decimal) -> bool {
    d.mantissa < pow10(18) && d.scale <= 18
}

/// Whether a token's numeric payload, if it has one, is one the scanner
/// can produce.
pub open spec fn tok_num_wf(t: Tok) -> bool {
    t matches Tok::Number(d) ==> dec_wf(d)
}

/// Whether every numeric payload in a token sequence is one the scanner
/// can produce.
pub open spec fn toks_wf(ts: Seq<Tok>) -> bool {
    forall|k: int| 0 <= k < ts.len() ==> #[trigger] tok_num_wf(ts[k])
}

/// Characters skipped silently between tokens (newline is separate: it
/// advances the diagnostic line counter).
pub open spec fn is_blank(c: char) -> bool {
    c == ' ' || c == '\r' || c == '\t'
}

/// ASCII decimal digit.
pub open spec fn is_digit(c: char) -> bool {
    '0' <= c && c <= '9'
}

/// ASCII letter, either case.
pub open spec fn is_letter(c: char) -> bool {
    ('A' <= c && c <= 'Z') || ('a' <= c && c <= 'z')
}

/// Characters that may continue an identifier-shaped lexeme: alphanumerics
/// plus the sharp accidental marker.
pub open spec fn is_ident_char(c: char) -> bool {
    is_letter(c) || is_digit(c) || c == '#'
}

/// Characters that may continue a numeric literal.
pub open spec fn is_num_char(c: char) -> bool {
    is_digit(c) || c == '.'
}

/// The numeric value of a digit character.
pub open spec fn digit_val(c: char) -> int {
    c as int - '0' as int
}

/// A token of the language, as the scanner hands it to the parser.
///
/// `Invalid` is the kind reserved for a character outside the recognized
/// set; the scanner reports such a character as a [`LexError`] instead of
/// placing an `Invalid` token in its output, so a returned token sequence
/// never contains it.  `EOF` is the sentinel that ends every token sequence.
#[derive(Debug)]
pub enum TokenType {
    Pitch(String),
    Play,
    MusicSheet,
    Bpm,
    Number(Decimal),
    AssignExpr,
    Identifier(String),
    Comma,
    OpenParen,
    CloseParen,
    OpenBrace,
    CloseBrace,
    Semicolon,
    Invalid,
    EOF,
}

/// The mathematical model of a token: payload strings are sequences of
/// characters.
pub ghost enum Tok {
    Pitch(Seq<char>),
    Play,
    MusicSheet,
    Bpm,
    Number(Decimal),
    AssignExpr,
    Identifier(Seq<char>),
    Comma,
    OpenParen,
    CloseParen,
    OpenBrace,
    CloseBrace,
    Semicolon,
    Invalid,
    EOF,
}

impl View for TokenType {
    type V = Tok;

    open spec fn view(&self) -> Tok {
        match self {
            TokenType::Pitch(s) => Tok::Pitch(s@),
            TokenType::Play => Tok::Play,
            TokenType::MusicSheet => Tok::MusicSheet,
            TokenType::Bpm => Tok::Bpm,
            TokenType::Number(d) => Tok::Number(*d),
            TokenType::AssignExpr => Tok::AssignExpr,
            TokenType::Identifier(s) => Tok::Identifier(s@),
            TokenType::Comma => Tok::Comma,
            TokenType::OpenParen => Tok::OpenParen,
            TokenType::CloseParen => Tok::CloseParen,
            TokenType::OpenBrace => Tok::OpenBrace,
            TokenType::CloseBrace => Tok::CloseBrace,
            TokenType::Semicolon => Tok::Semicolon,
            TokenType::Invalid => Tok::Invalid,
            TokenType::EOF => Tok::EOF,
        }
    }
}

/// The model of a sequence of tokens.
pub open spec fn toks_view(v: Seq<TokenType>) -> Seq<Tok> {
    v.map_values(|t: TokenType| t@)
}

/// What went wrong lexically.
#[derive(Clone, Copy, PartialEq, Eq, Structural, Debug)]
pub enum LexErrorKind {
    /// A character that does not begin any token.
    UnrecognizedChar,
    /// A numeric literal with more than one decimal point.
    MalformedNumber,
    /// A numeric literal with more than eighteen digits, which the exact
    /// decimal representation does not hold.
    NumberTooLong,
}

/// A lexical failure: the whole scan is abandoned, no token sequence is
/// returned.
///
/// `ch` is the offending character: the unrecognized character itself, the
/// second decimal point of a malformed literal, or the leading digit of an
/// over-long literal.  `line` is the 1-based source line it stands on.
#[derive(Clone, Copy, PartialEq, Eq, Debug)]
pub struct LexError {
    pub ch: char,
    pub line: usize,
    pub kind: LexErrorKind,
}

/// The mathematical model of a lexical failure, with an unbounded line
/// number.
pub ghost struct LexErr {
    pub ch: char,
    pub line: int,
    pub kind: LexErrorKind,
}

impl View for LexError {
    type V = LexErr;

    open spec fn view(&self) -> LexErr {
        LexErr { ch: self.ch, line: self.line as int, kind: self.kind }
    }
}

pub(crate) fn blank_exec(c: char) -> (b: bool)
    ensures
        b == is_blank(c),
{
    c == ' ' || c == '\r' || c == '\t'
}

pub(crate) fn digit_exec(c: char) -> (b: bool)
    ensures
        b == is_digit(c),
{
    '0' <= c && c <= '9'
}

pub(crate) fn letter_exec(c: char) -> (b: bool)
    ensures
        b == is_letter(c),
{
    ('A' <= c && c <= 'Z') || ('a' <= c && c <= 'z')
}

pub(crate) fn ident_char_exec(c: char) -> (b: bool)
    ensures
        b == is_ident_char(c),
{
    letter_exec(c) || digit_exec(c) || c == '#'
}

pub(crate) fn num_char_exec(c: char) -> (b: bool)
    ensures
        b == is_num_char(c),
{
    digit_exec(c) || c == '.'
}

} // verus!

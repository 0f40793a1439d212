//! The lexical scanner: one left-to-right pass over the source text.
//!
//! [`scan_spec`] is the functional model of the whole scan; [`tokenize`]
//! is the executable scanner, proved to return exactly what the model says
//! for every source string.

use vstd::prelude::*;

use crate::token::{
    blank_exec, dec_wf, digit_exec, digit_val, ident_char_exec, is_blank, is_digit, is_ident_char,
    is_letter, is_num_char, lemma_pow10_18, lemma_pow10_mono, lemma_pow10_pos, letter_exec,
    num_char_exec, pow10, tok_num_wf, toks_view, toks_wf, Decimal, LexErr, LexError, LexErrorKind,
    Tok, TokenType,
};

verus! {

/// The first position at or after `i` that does not continue an
/// identifier-shaped lexeme.
pub open spec fn ident_end(s: Seq<char>, i: int) -> int
    recommends
        0 <= i <= s.len(),
    decreases s.len() - i,
{
    if 0 <= i < s.len() && is_ident_char(s[i]) {
        ident_end(s, i + 1)
    } else {
        i
    }
}

/// The first position at or after `i` that does not continue a numeric
/// literal.
pub open spec fn num_end(s: Seq<char>, i: int) -> int
    recommends
        0 <= i <= s.len(),
    decreases s.len() - i,
{
    if 0 <= i < s.len() && is_num_char(s[i]) {
        num_end(s, i + 1)
    } else {
        i
    }
}

pub proof fn lemma_ident_end(s: Seq<char>, i: int)
    requires
        0 <= i <= s.len(),
    ensures
        i <= ident_end(s, i) <= s.len(),
        forall|k: int| i <= k < ident_end(s, i) ==> is_ident_char(s[k]),
        ident_end(s, i) == s.len() || !is_ident_char(s[ident_end(s, i)]),
    decreases s.len() - i,
{
    if i < s.len() && is_ident_char(s[i]) {
        lemma_ident_end(s, i + 1);
    }
}

pub proof fn lemma_num_end(s: Seq<char>, i: int)
    requires
        0 <= i <= s.len(),
    ensures
        i <= num_end(s, i) <= s.len(),
        forall|k: int| i <= k < num_end(s, i) ==> is_num_char(s[k]),
        num_end(s, i) == s.len() || !is_num_char(s[num_end(s, i)]),
    decreases s.len() - i,
{
    if i < s.len() && is_num_char(s[i]) {
        lemma_num_end(s, i + 1);
    }
}

/// If some position at or after `i` fails the class test, the lexeme ends
/// no later than that position.
proof fn lemma_ident_end_bound(s: Seq<char>, i: int, k: int)
    requires
        0 <= i <= k < s.len(),
        !is_ident_char(s[k]),
    ensures
        ident_end(s, i) <= k,
    decreases s.len() - i,
{
    if i < k && is_ident_char(s[i]) {
        lemma_ident_end_bound(s, i + 1, k);
    }
}

proof fn lemma_num_end_bound(s: Seq<char>, i: int, k: int)
    requires
        0 <= i <= k < s.len(),
        !is_num_char(s[k]),
    ensures
        num_end(s, i) <= k,
    decreases s.len() - i,
{
    if i < k && is_num_char(s[i]) {
        lemma_num_end_bound(s, i + 1, k);
    }
}

/// Running state of the numeric-literal reader: the mantissa and scale
/// accumulated so far, whether a decimal point has been seen, and how many
/// decimal points there were.
pub ghost struct NumState {
    pub m: int,
    pub sc: int,
    pub seen: bool,
    pub dots: int,
}

pub open spec fn num_init() -> NumState {
    NumState { m: 0, sc: 0, seen: false, dots: 0 }
}

/// One character of a numeric literal folded into the reader state.
pub open spec fn num_step(st: NumState, c: char) -> NumState {
    if c == '.' {
        NumState { seen: true, dots: st.dots + 1, ..st }
    } else if is_digit(c) {
        NumState {
            m: st.m * 10 + digit_val(c),
            sc: st.sc + if st.seen { 1int } else { 0int },
            ..st
        }
    } else {
        st
    }
}

/// The reader state after folding the characters of `s[k..j)` into `st`.
pub open spec fn num_scan(s: Seq<char>, k: int, j: int, st: NumState) -> NumState
    recommends
        0 <= k <= j <= s.len(),
    decreases j - k,
{
    if 0 <= k < j && k < s.len() {
        num_scan(s, k + 1, j, num_step(st, s[k]))
    } else {
        st
    }
}

/// The digit count never drops and grows by at most one per character.
proof fn lemma_num_scan_dots(s: Seq<char>, k: int, j: int, st: NumState)
    requires
        0 <= k <= j <= s.len(),
    ensures
        st.dots <= num_scan(s, k, j, st).dots <= st.dots + (j - k),
    decreases j - k,
{
    if k < j {
        lemma_num_scan_dots(s, k + 1, j, num_step(st, s[k]));
    }
}

/// The keyword introducing a tempo declaration.
pub open spec fn is_bpm_kw(q: Seq<char>) -> bool {
    q.len() == 3 && q[0] == 'B' && q[1] == 'P' && q[2] == 'M'
}

/// The keyword introducing a playback directive.
pub open spec fn is_play_kw(q: Seq<char>) -> bool {
    q.len() == 4 && q[0] == 'P' && q[1] == 'l' && q[2] == 'a' && q[3] == 'y'
}

/// The keyword introducing a note sheet.
pub open spec fn is_sheet_kw(q: Seq<char>) -> bool {
    q.len() == 10 && q[0] == 'M' && q[1] == 'u' && q[2] == 's' && q[3] == 'i' && q[4] == 'c'
        && q[5] == 'S' && q[6] == 'h' && q[7] == 'e' && q[8] == 'e' && q[9] == 't'
}

/// A note name letter, `A` through `G`.
pub open spec fn is_note_letter(c: char) -> bool {
    'A' <= c && c <= 'G'
}

/// An octave digit, `0` through `8`.
pub open spec fn is_octave_digit(c: char) -> bool {
    '0' <= c && c <= '8'
}

/// A sharp or flat accidental marker.
pub open spec fn is_accidental(c: char) -> bool {
    c == '#' || c == 'b'
}

/// The shape of a pitch: a note letter, an optional accidental, and an
/// octave digit.
pub open spec fn is_pitch_shape(q: Seq<char>) -> bool {
    ||| (q.len() == 2 && is_note_letter(q[0]) && is_octave_digit(q[1]))
    ||| (q.len() == 3 && is_note_letter(q[0]) && is_accidental(q[1]) && is_octave_digit(q[2]))
}

/// Classification of an identifier-shaped lexeme, in the fixed order:
/// keywords first, then the pitch shape, then a plain identifier.
pub open spec fn classify(q: Seq<char>) -> Tok {
    if is_bpm_kw(q) {
        Tok::Bpm
    } else if is_play_kw(q) {
        Tok::Play
    } else if is_sheet_kw(q) {
        Tok::MusicSheet
    } else if is_pitch_shape(q) {
        Tok::Pitch(q)
    } else {
        Tok::Identifier(q)
    }
}

/// The functional model of the scan.
///
/// `scan_spec(s, i, line, acc)` is the result of scanning the rest of `s`
/// from position `i`, on diagnostic line `line`, with the tokens of the
/// already-scanned prefix in `acc`: either the complete token sequence,
/// ending in exactly one `EOF`, or the first lexical failure.  The whole
/// scan of a source text is `scan_spec(s, 0, 1, Seq::empty())`.
pub open spec fn scan_spec(s: Seq<char>, i: int, line: int, acc: Seq<Tok>) -> Result<
    Seq<Tok>,
    LexErr,
>
    recommends
        0 <= i <= s.len(),
    decreases s.len() - i,
    via scan_spec_decreases
{
    if !(0 <= i < s.len()) {
        Ok(acc.push(Tok::EOF))
    } else {
        let c = s[i];
        if is_blank(c) {
            scan_spec(s, i + 1, line, acc)
        } else if c == '\n' {
            scan_spec(s, i + 1, line + 1, acc)
        } else if c == ',' {
            scan_spec(s, i + 1, line, acc.push(Tok::Comma))
        } else if c == '=' {
            scan_spec(s, i + 1, line, acc.push(Tok::AssignExpr))
        } else if c == '(' {
            scan_spec(s, i + 1, line, acc.push(Tok::OpenParen))
        } else if c == ')' {
            scan_spec(s, i + 1, line, acc.push(Tok::CloseParen))
        } else if c == '{' {
            scan_spec(s, i + 1, line, acc.push(Tok::OpenBrace))
        } else if c == '}' {
            scan_spec(s, i + 1, line, acc.push(Tok::CloseBrace))
        } else if c == ';' {
            scan_spec(s, i + 1, line, acc.push(Tok::Semicolon))
        } else if is_digit(c) {
            let j = num_end(s, i);
            let st = num_scan(s, i, j, num_init());
            if st.dots >= 2 {
                Err(LexErr { ch: '.', line, kind: LexErrorKind::MalformedNumber })
            } else if j - i - st.dots > 18 {
                Err(LexErr { ch: c, line, kind: LexErrorKind::NumberTooLong })
            } else {
                scan_spec(
                    s,
                    j,
                    line,
                    acc.push(
                        Tok::Number(Decimal { mantissa: st.m as u64, scale: st.sc as u32 }),
                    ),
                )
            }
        } else if is_letter(c) {
            let j = ident_end(s, i);
            scan_spec(s, j, line, acc.push(classify(s.subrange(i, j))))
        } else {
            Err(LexErr { ch: c, line, kind: LexErrorKind::UnrecognizedChar })
        }
    }
}

#[via_fn]
proof fn scan_spec_decreases(s: Seq<char>, i: int, line: int, acc: Seq<Tok>) {
    if 0 <= i < s.len() {
        lemma_num_end(s, i);
        lemma_ident_end(s, i);
    }
}

/// Finds the end of the identifier-shaped lexeme that starts at `i`.
fn ident_end_exec(s: &str, i: usize) -> (j: usize)
    requires
        i <= s@.len(),
    ensures
        j as int == ident_end(s@, i as int),
        i <= j <= s@.len(),
{
    let n = s.unicode_len();
    let mut j = i;
    while j < n && ident_char_exec(s.get_char(j))
        invariant
            i <= j <= n,
            n == s@.len(),
            ident_end(s@, i as int) == ident_end(s@, j as int),
        decreases n - j,
    {
        j = j + 1;
    }
    j
}

/// Finds the end of the numeric literal that starts at `i`.
fn num_end_exec(s: &str, i: usize) -> (j: usize)
    requires
        i <= s@.len(),
    ensures
        j as int == num_end(s@, i as int),
        i <= j <= s@.len(),
{
    let n = s.unicode_len();
    let mut j = i;
    while j < n && num_char_exec(s.get_char(j))
        invariant
            i <= j <= n,
            n == s@.len(),
            num_end(s@, i as int) == num_end(s@, j as int),
        decreases n - j,
    {
        j = j + 1;
    }
    j
}

/// Bounds on the numeric-literal reader: the mantissa stays below ten to
/// the number of digits folded in, and the scale below that digit count.
proof fn lemma_num_scan_bounds(s: Seq<char>, k: int, j: int, st: NumState, dd: int)
    requires
        0 <= k <= j <= s.len(),
        0 <= dd,
        0 <= st.m < pow10(dd),
        0 <= st.sc <= dd,
        0 <= st.dots,
    ensures
        ({
            let r = num_scan(s, k, j, st);
            let dd2 = dd + (j - k) - (r.dots - st.dots);
            0 <= r.m < pow10(dd2) && 0 <= r.sc <= dd2 && st.dots <= r.dots <= st.dots + (j - k)
        }),
    decreases j - k,
{
    lemma_num_scan_dots(s, k, j, st);
    if k < j {
        let c = s[k];
        let st2 = num_step(st, c);
        if c == '.' {
            lemma_num_scan_bounds(s, k + 1, j, st2, dd);
        } else if is_digit(c) {
            assert(pow10(dd + 1) == 10 * pow10(dd));
            lemma_num_scan_bounds(s, k + 1, j, st2, dd + 1);
        } else {
            lemma_pow10_mono(dd, dd + 1);
            lemma_num_scan_bounds(s, k + 1, j, st2, dd + 1);
        }
    }
}

/// Every numeric token the scan produces carries at most eighteen digits:
/// its mantissa is below `10^18` and its scale at most 18.
pub proof fn lemma_scan_wf(s: Seq<char>, i: int, line: int, acc: Seq<Tok>)
    requires
        toks_wf(acc),
    ensures
        scan_spec(s, i, line, acc) matches Ok(ts) ==> toks_wf(ts),
    decreases s.len() - i,
{
    if !(0 <= i < s.len()) {
        assert(toks_wf(acc.push(Tok::EOF))) by {
            assert(forall|k: int|
                0 <= k < acc.push(Tok::EOF).len() ==> #[trigger] tok_num_wf(
                    acc.push(Tok::EOF)[k],
                ));
        }
    } else {
        let c = s[i];
        if is_blank(c) {
            lemma_scan_wf(s, i + 1, line, acc);
        } else if c == '\n' {
            lemma_scan_wf(s, i + 1, line + 1, acc);
        } else if c == ',' || c == '=' || c == '(' || c == ')' || c == '{' || c == '}' || c
            == ';' {
            let t = if c == ',' {
                Tok::Comma
            } else if c == '=' {
                Tok::AssignExpr
            } else if c == '(' {
                Tok::OpenParen
            } else if c == ')' {
                Tok::CloseParen
            } else if c == '{' {
                Tok::OpenBrace
            } else if c == '}' {
                Tok::CloseBrace
            } else {
                Tok::Semicolon
            };
            assert(toks_wf(acc.push(t))) by {
                assert(forall|k: int|
                    0 <= k < acc.push(t).len() ==> #[trigger] tok_num_wf(acc.push(t)[k]));
            }
            lemma_scan_wf(s, i + 1, line, acc.push(t));
        } else if is_digit(c) {
            lemma_num_end(s, i);
            let j = num_end(s, i);
            let st = num_scan(s, i, j, num_init());
            if !(st.dots >= 2) && !(j - i - st.dots > 18) {
                lemma_num_scan_bounds(s, i, j, num_init(), 0);
                lemma_pow10_mono((j - i) - st.dots, 18);
                lemma_pow10_18();
                let d = Decimal { mantissa: st.m as u64, scale: st.sc as u32 };
                assert(dec_wf(d));
                let t = Tok::Number(d);
                assert(toks_wf(acc.push(t))) by {
                    assert(forall|k: int|
                        0 <= k < acc.push(t).len() ==> #[trigger] tok_num_wf(acc.push(t)[k]));
                }
                lemma_scan_wf(s, j, line, acc.push(t));
            }
        } else if is_letter(c) {
            lemma_ident_end(s, i);
            let j = ident_end(s, i);
            let t = classify(s.subrange(i, j));
            assert(tok_num_wf(t));
            assert(toks_wf(acc.push(t))) by {
                assert(forall|k: int|
                    0 <= k < acc.push(t).len() ==> #[trigger] tok_num_wf(acc.push(t)[k]));
            }
            lemma_scan_wf(s, j, line, acc.push(t));
        }
    }
}

/// The characters that can appear anywhere in a scannable source text:
/// whitespace, digits, letters, punctuation, and the two characters that
/// may continue a lexeme.
pub open spec fn recognized_char(c: char) -> bool {
    ||| is_blank(c)
    ||| c == '\n'
    ||| is_digit(c)
    ||| is_letter(c)
    ||| c == ','
    ||| c == '='
    ||| c == '('
    ||| c == ')'
    ||| c == '{'
    ||| c == '}'
    ||| c == ';'
    ||| c == '#'
    ||| c == '.'
}

proof fn lemma_unrecognized_char_fails_from(s: Seq<char>, k: int, i: int, line: int, acc: Seq<Tok>)
    requires
        0 <= i <= k < s.len(),
        !recognized_char(s[k]),
    ensures
        scan_spec(s, i, line, acc) is Err,
    decreases s.len() - i,
{
    let c = s[i];
    if i == k {
    } else if is_blank(c) {
        lemma_unrecognized_char_fails_from(s, k, i + 1, line, acc);
    } else if c == '\n' {
        lemma_unrecognized_char_fails_from(s, k, i + 1, line + 1, acc);
    } else if c == ',' || c == '=' || c == '(' || c == ')' || c == '{' || c == '}' || c == ';' {
        let t = if c == ',' {
            Tok::Comma
        } else if c == '=' {
            Tok::AssignExpr
        } else if c == '(' {
            Tok::OpenParen
        } else if c == ')' {
            Tok::CloseParen
        } else if c == '{' {
            Tok::OpenBrace
        } else if c == '}' {
            Tok::CloseBrace
        } else {
            Tok::Semicolon
        };
        lemma_unrecognized_char_fails_from(s, k, i + 1, line, acc.push(t));
    } else if is_digit(c) {
        lemma_num_end(s, i);
        lemma_num_end_bound(s, i, k);
        let j = num_end(s, i);
        let st = num_scan(s, i, j, num_init());
        if !(st.dots >= 2) && !(j - i - st.dots > 18) {
            lemma_unrecognized_char_fails_from(
                s,
                k,
                j,
                line,
                acc.push(Tok::Number(Decimal { mantissa: st.m as u64, scale: st.sc as u32 })),
            );
        }
    } else if is_letter(c) {
        lemma_ident_end(s, i);
        lemma_ident_end_bound(s, i, k);
        let j = ident_end(s, i);
        lemma_unrecognized_char_fails_from(s, k, j, line, acc.push(classify(s.subrange(i, j))));
    }
}

/// A character that no token can contain makes the whole scan fail: no
/// token sequence is returned, so nothing scanned beyond it can be used.
pub proof fn lemma_unrecognized_char_fails(s: Seq<char>, k: int)
    requires
        0 <= k < s.len(),
        !recognized_char(s[k]),
    ensures
        scan_spec(s, 0, 1, Seq::empty()) is Err,
{
    lemma_unrecognized_char_fails_from(s, k, 0, 1, Seq::empty());
}

proof fn lemma_scan_eof_from(s: Seq<char>, i: int, line: int, acc: Seq<Tok>)
    requires
        forall|k: int| 0 <= k < acc.len() ==> acc[k] != Tok::EOF,
    ensures
        scan_spec(s, i, line, acc) matches Ok(ts) ==> ts.len() > acc.len() && ts[ts.len() - 1]
            == Tok::EOF && (forall|k: int| 0 <= k < ts.len() - 1 ==> ts[k] != Tok::EOF),
    decreases s.len() - i,
{
    if !(0 <= i < s.len()) {
    } else {
        let c = s[i];
        if is_blank(c) {
            lemma_scan_eof_from(s, i + 1, line, acc);
        } else if c == '\n' {
            lemma_scan_eof_from(s, i + 1, line + 1, acc);
        } else if c == ',' || c == '=' || c == '(' || c == ')' || c == '{' || c == '}' || c
            == ';' {
            let t = if c == ',' {
                Tok::Comma
            } else if c == '=' {
                Tok::AssignExpr
            } else if c == '(' {
                Tok::OpenParen
            } else if c == ')' {
                Tok::CloseParen
            } else if c == '{' {
                Tok::OpenBrace
            } else if c == '}' {
                Tok::CloseBrace
            } else {
                Tok::Semicolon
            };
            lemma_scan_eof_from(s, i + 1, line, acc.push(t));
        } else if is_digit(c) {
            lemma_num_end(s, i);
            let j = num_end(s, i);
            let st = num_scan(s, i, j, num_init());
            if !(st.dots >= 2) && !(j - i - st.dots > 18) {
                lemma_scan_eof_from(
                    s,
                    j,
                    line,
                    acc.push(Tok::Number(Decimal { mantissa: st.m as u64, scale: st.sc as u32 })),
                );
            }
        } else if is_letter(c) {
            lemma_ident_end(s, i);
            let j = ident_end(s, i);
            lemma_scan_eof_from(s, j, line, acc.push(classify(s.subrange(i, j))));
        }
    }
}

/// A successful scan yields at least the sentinel, ends with exactly one
/// `EOF` token, and holds no `EOF` anywhere before the end.
pub proof fn lemma_scan_ends_with_eof(s: Seq<char>)
    ensures
        scan_spec(s, 0, 1, Seq::empty()) matches Ok(ts) ==> ts.len() > 0 && ts[ts.len() - 1]
            == Tok::EOF && (forall|k: int| 0 <= k < ts.len() - 1 ==> ts[k] != Tok::EOF),
{
    lemma_scan_eof_from(s, 0, 1, Seq::empty());
}

/// Reads the numeric literal starting at position `i`: its exact decimal
/// value and the position just past it, or the lexical failure the model
/// assigns to it.
fn lex_number(s: &str, i: usize, line: usize) -> (r: Result<(Decimal, usize), LexError>)
    requires
        i < s@.len(),
    ensures
        ({
            let j = num_end(s@, i as int);
            let st = num_scan(s@, i as int, j, num_init());
            if st.dots >= 2 {
                r matches Err(e) && e@ == (LexErr {
                    ch: '.',
                    line: line as int,
                    kind: LexErrorKind::MalformedNumber,
                })
            } else if j - i - st.dots > 18 {
                r matches Err(e) && e@ == (LexErr {
                    ch: s@[i as int],
                    line: line as int,
                    kind: LexErrorKind::NumberTooLong,
                })
            } else {
                r matches Ok(p) && p.1 as int == j && p.0 == (Decimal {
                    mantissa: st.m as u64,
                    scale: st.sc as u32,
                })
            }
        }),
{
    let ghost s_seq = s@;
    let j = num_end_exec(s, i);
    proof {
        lemma_num_end(s_seq, i as int);
    }
    // First pass: count the decimal points, so that the error cases and the
    // digit count are settled before any arithmetic is done.
    let mut dots: usize = 0;
    let mut k = i;
    let ghost mut st = num_init();
    while k < j
        invariant
            i <= k <= j <= s_seq.len(),
            s@ == s_seq,
            num_scan(s_seq, i as int, j as int, num_init()) == num_scan(
                s_seq,
                k as int,
                j as int,
                st,
            ),
            st.dots == dots,
            0 <= dots <= k - i,
        decreases j - k,
    {
        let c = s.get_char(k);
        if c == '.' {
            dots = dots + 1;
        }
        proof {
            st = num_step(st, s_seq[k as int]);
        }
        k = k + 1;
    }
    let ghost full = num_scan(s_seq, i as int, j as int, num_init());
    proof {
        assert(num_scan(s_seq, j as int, j as int, st) == st);
        assert(full == st);
    }
    if dots >= 2 {
        return Err(LexError { ch: '.', line, kind: LexErrorKind::MalformedNumber });
    }
    let digits = (j - i) - dots;
    if digits > 18 {
        return Err(LexError { ch: s.get_char(i), line, kind: LexErrorKind::NumberTooLong });
    }
    // Second pass: fold the digits into the exact mantissa and scale.  The
    // digit count is at most eighteen, so the mantissa stays below `10^18`.
    let mut m: u64 = 0;
    let mut sc: u32 = 0;
    let mut seen: bool = false;
    let mut k2 = i;
    let ghost mut st2 = num_init();
    proof {
        lemma_pow10_18();
    }
    while k2 < j
        invariant
            i <= k2 <= j <= s_seq.len(),
            s@ == s_seq,
            num_scan(s_seq, i as int, j as int, num_init()) == num_scan(
                s_seq,
                k2 as int,
                j as int,
                st2,
            ),
            full == num_scan(s_seq, i as int, j as int, num_init()),
            full.dots <= 1,
            j - i - full.dots <= 18,
            forall|x: int| i <= x < j ==> is_num_char(s_seq[x]),
            m as int == st2.m,
            sc as int == st2.sc,
            seen == st2.seen,
            0 <= st2.dots <= k2 - i,
            st2.m < pow10(k2 - i - st2.dots),
            st2.sc <= k2 - i,
            pow10(18) == 1000000000000000000,
        decreases j - k2,
    {
        let c = s.get_char(k2);
        let ghost st2_next = num_step(st2, s_seq[k2 as int]);
        proof {
            assert(num_scan(s_seq, k2 as int, j as int, st2) == num_scan(
                s_seq,
                k2 as int + 1,
                j as int,
                st2_next,
            ));
            lemma_num_scan_dots(s_seq, k2 as int + 1, j as int, st2_next);
        }
        if c == '.' {
            seen = true;
        } else {
            proof {
                // The digits folded in so far number at most seventeen, so
                // one more still fits the mantissa bound, which stays at or
                // below `10^18`.
                assert(st2_next.dots == st2.dots);
                assert(st2_next.dots <= full.dots <= st2_next.dots + (j - (k2 + 1)));
                assert(k2 + 1 - i - st2.dots <= j - i - full.dots);
                lemma_pow10_mono(k2 as int + 1 - i - st2.dots, 18);
                assert(pow10(k2 as int + 1 - i - st2.dots) == 10 * pow10(
                    k2 as int - i - st2.dots,
                ));
            }
            let d = (c as u32 - '0' as u32) as u64;
            m = m * 10 + d;
            if seen {
                sc = sc + 1;
            }
        }
        proof {
            st2 = num_step(st2, s_seq[k2 as int]);
        }
        k2 = k2 + 1;
    }
    proof {
        assert(num_scan(s_seq, j as int, j as int, st2) == st2);
        assert(full == st2);
    }
    Ok((Decimal { mantissa: m, scale: sc }, j))
}

/// Classifies the identifier-shaped lexeme `s[i..j)` into its token,
/// copying the lexeme out for pitch and identifier payloads.
fn classify_exec(s: &str, i: usize, j: usize) -> (t: TokenType)
    requires
        i < j <= s@.len(),
    ensures
        t@ == classify(s@.subrange(i as int, j as int)),
{
    let ghost q = s@.subrange(i as int, j as int);
    let len = j - i;
    if len == 3 && s.get_char(i) == 'B' && s.get_char(i + 1) == 'P' && s.get_char(i + 2) == 'M' {
        TokenType::Bpm
    } else if len == 4 && s.get_char(i) == 'P' && s.get_char(i + 1) == 'l' && s.get_char(i + 2)
        == 'a' && s.get_char(i + 3) == 'y' {
        TokenType::Play
    } else if len == 10 && s.get_char(i) == 'M' && s.get_char(i + 1) == 'u' && s.get_char(i + 2)
        == 's' && s.get_char(i + 3) == 'i' && s.get_char(i + 4) == 'c' && s.get_char(i + 5) == 'S'
        && s.get_char(i + 6) == 'h' && s.get_char(i + 7) == 'e' && s.get_char(i + 8) == 'e'
        && s.get_char(i + 9) == 't' {
        TokenType::MusicSheet
    } else {
        let c0 = s.get_char(i);
        let shape2 = len == 2 && ('A' <= c0 && c0 <= 'G') && {
            let c1 = s.get_char(i + 1);
            '0' <= c1 && c1 <= '8'
        };
        let shape3 = len == 3 && ('A' <= c0 && c0 <= 'G') && {
            let c1 = s.get_char(i + 1);
            c1 == '#' || c1 == 'b'
        } && {
            let c2 = s.get_char(i + 2);
            '0' <= c2 && c2 <= '8'
        };
        let text = s.substring_char(i, j).to_owned();
        if shape2 || shape3 {
            TokenType::Pitch(text)
        } else {
            TokenType::Identifier(text)
        }
    }
}

/// Scans a complete source text into its token sequence, or reports the
/// first lexical failure.
///
/// The result is exactly what the functional model [`scan_spec`] assigns to
/// the text: on success the token sequence ends in exactly one `EOF`, and on
/// failure no tokens are returned at all.
pub fn tokenize(source_code: &str) -> (r: Result<Vec<TokenType>, LexError>)
    requires
        source_code@.len() < usize::MAX,
    ensures
        (scan_spec(source_code@, 0, 1, Seq::empty()) matches Ok(ts) ==> r matches Ok(v)
            && toks_view(v@) == ts),
        (scan_spec(source_code@, 0, 1, Seq::empty()) matches Err(e) ==> r matches Err(le)
            && le@ == e),
{
    let ghost s_seq = source_code@;
    let n = source_code.unicode_len();
    let mut tokens: Vec<TokenType> = Vec::new();
    let mut i: usize = 0;
    let mut line: usize = 1;
    proof {
        assert(toks_view(tokens@) =~= Seq::<Tok>::empty());
    }
    while i < n
        invariant
            i <= n,
            n == s_seq.len(),
            source_code@ == s_seq,
            n < usize::MAX,
            1 <= line <= 1 + i,
            scan_spec(s_seq, 0, 1, Seq::empty()) == scan_spec(
                s_seq,
                i as int,
                line as int,
                toks_view(tokens@),
            ),
        decreases n - i,
    {
        let ghost acc = toks_view(tokens@);
        let c = source_code.get_char(i);
        if blank_exec(c) {
            i = i + 1;
        } else if c == '\n' {
            line = line + 1;
            i = i + 1;
        } else if c == ',' {
            tokens.push(TokenType::Comma);
            proof {
                assert(toks_view(tokens@) =~= acc.push(Tok::Comma));
            }
            i = i + 1;
        } else if c == '=' {
            tokens.push(TokenType::AssignExpr);
            proof {
                assert(toks_view(tokens@) =~= acc.push(Tok::AssignExpr));
            }
            i = i + 1;
        } else if c == '(' {
            tokens.push(TokenType::OpenParen);
            proof {
                assert(toks_view(tokens@) =~= acc.push(Tok::OpenParen));
            }
            i = i + 1;
        } else if c == ')' {
            tokens.push(TokenType::CloseParen);
            proof {
                assert(toks_view(tokens@) =~= acc.push(Tok::CloseParen));
            }
            i = i + 1;
        } else if c == '{' {
            tokens.push(TokenType::OpenBrace);
            proof {
                assert(toks_view(tokens@) =~= acc.push(Tok::OpenBrace));
            }
            i = i + 1;
        } else if c == '}' {
            tokens.push(TokenType::CloseBrace);
            proof {
                assert(toks_view(tokens@) =~= acc.push(Tok::CloseBrace));
            }
            i = i + 1;
        } else if c == ';' {
            tokens.push(TokenType::Semicolon);
            proof {
                assert(toks_view(tokens@) =~= acc.push(Tok::Semicolon));
            }
            i = i + 1;
        } else if digit_exec(c) {
            match lex_number(source_code, i, line) {
                Ok(pair) => {
                    let (d, j) = pair;
                    proof {
                        lemma_num_end(s_seq, i as int);
                    }
                    tokens.push(TokenType::Number(d));
                    proof {
                        assert(toks_view(tokens@) =~= acc.push(Tok::Number(d)));
                    }
                    i = j;
                },
                Err(e) => {
                    return Err(e);
                },
            }
        } else if letter_exec(c) {
            let j = ident_end_exec(source_code, i);
            proof {
                lemma_ident_end(s_seq, i as int);
            }
            let t = classify_exec(source_code, i, j);
            tokens.push(t);
            proof {
                assert(toks_view(tokens@) =~= acc.push(t@));
            }
            i = j;
        } else {
            return Err(LexError { ch: c, line, kind: LexErrorKind::UnrecognizedChar });
        }
    }
    proof {
        assert(scan_spec(s_seq, i as int, line as int, toks_view(tokens@)) == Ok::<_, LexErr>(
            toks_view(tokens@).push(Tok::EOF),
        ));
    }
    let ghost acc = toks_view(tokens@);
    tokens.push(TokenType::EOF);
    proof {
        assert(toks_view(tokens@) =~= acc.push(Tok::EOF));
    }
    Ok(tokens)
}

} // verus!

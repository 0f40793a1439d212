//! The resolver: from note entries and a tempo to timed pitch events.
//!
//! A pitch string is resolved to a signed semitone offset from the 440 Hz
//! reference pitch (the A of octave 4); the frequency in Hertz is then
//! `440 * 2^(offset / 12)`, a step this crate leaves to the caller since it
//! is irrational in general.  A duration is resolved to an exact ratio of
//! seconds: `(60 / bpm) * multiplier`.

use vstd::prelude::*;

use crate::ast::{
    astv_wf, astvs_wf, nodes_view, notes_view, notev_wf, notevs_wf, AstNode, AstV, Note, NoteV,
    ParseError,
};
use crate::parser::{lemma_parse_program_wf, parse_program_spec, Parser};
use crate::scanner::{lemma_scan_wf, scan_spec, tokenize};
use crate::token::{
    dec_wf, digit_exec, digit_val, is_digit, lemma_pow10_18, lemma_pow10_mono, pow10, toks_wf, Decimal, LexErr,
    LexError, Tok,
};

verus! {

/// Why a resolution failed.
#[derive(Clone, Copy, PartialEq, Eq, Structural, Debug)]
pub enum ResolutionError {
    /// The note-name part of a pitch string is not in the semitone table.
    UnknownNoteName,
    /// The tempo is zero beats per minute, which has no musical meaning.
    NonPositiveTempo,
}

/// An exact non-negative rational number of seconds.
#[derive(Clone, Copy, PartialEq, Eq, Structural, Debug)]
pub struct Ratio {
    pub num: u128,
    pub den: u128,
}

/// The semitone table, relative to A: the offset of a one- or two-character
/// note name, or `None` when the name is not in the table (so for the
/// enharmonic ghosts `B#`, `Cb`, `E#` and `Fb` as well as for anything that
/// is not a note name at all).
pub open spec fn half_steps_of(name: Seq<char>) -> Option<int> {
    if name.len() == 1 {
        if name[0] == 'A' {
            Some(0int)
        } else if name[0] == 'B' {
            Some(2int)
        } else if name[0] == 'C' {
            Some(-9int)
        } else if name[0] == 'D' {
            Some(-7int)
        } else if name[0] == 'E' {
            Some(-5int)
        } else if name[0] == 'F' {
            Some(-4int)
        } else if name[0] == 'G' {
            Some(-2int)
        } else {
            None
        }
    } else if name.len() == 2 && name[1] == '#' {
        if name[0] == 'A' {
            Some(1int)
        } else if name[0] == 'C' {
            Some(-8int)
        } else if name[0] == 'D' {
            Some(-6int)
        } else if name[0] == 'F' {
            Some(-3int)
        } else if name[0] == 'G' {
            Some(-1int)
        } else {
            None
        }
    } else if name.len() == 2 && name[1] == 'b' {
        if name[0] == 'B' {
            Some(1int)
        } else if name[0] == 'D' {
            Some(-8int)
        } else if name[0] == 'E' {
            Some(-6int)
        } else if name[0] == 'G' {
            Some(-3int)
        } else if name[0] == 'A' {
            Some(-1int)
        } else {
            None
        }
    } else {
        None
    }
}

/// The first position at or after `i` holding a digit, or the length of `s`
/// when there is none.
pub open spec fn first_digit(s: Seq<char>, i: int) -> int
    recommends
        0 <= i <= s.len(),
    decreases s.len() - i,
{
    if 0 <= i < s.len() {
        if is_digit(s[i]) {
            i
        } else {
            first_digit(s, i + 1)
        }
    } else {
        s.len() as int
    }
}

/// The semitone offset from the 440 Hz reference that a pitch string
/// resolves to: the name before the first digit is looked up in the
/// semitone table, the first digit is the octave, and each octave away from
/// octave 4 is twelve semitones.  `None` when there is no digit or the name
/// is not in the table.
pub open spec fn pitch_semitones(s: Seq<char>) -> Option<int> {
    let k = first_digit(s, 0);
    if k == s.len() {
        None
    } else {
        match half_steps_of(s.subrange(0, k)) {
            Some(h) => Some((digit_val(s[k]) - 4) * 12 + h),
            None => None,
        }
    }
}

proof fn lemma_first_digit(s: Seq<char>, i: int)
    requires
        0 <= i <= s.len(),
    ensures
        i <= first_digit(s, i) <= s.len(),
        forall|k: int| i <= k < first_digit(s, i) ==> !is_digit(s[k]),
        first_digit(s, i) < s.len() ==> is_digit(s[first_digit(s, i)]),
    decreases s.len() - i,
{
    if i < s.len() && !is_digit(s[i]) {
        lemma_first_digit(s, i + 1);
    }
}

/// Looks the name `s[0..k)` up in the semitone table.
fn half_steps_exec(s: &str, k: usize) -> (r: Option<i32>)
    requires
        k <= s@.len(),
    ensures
        (half_steps_of(s@.subrange(0, k as int)) matches Some(h) ==> r matches Some(x) && x as int
            == h),
        (half_steps_of(s@.subrange(0, k as int)) is None ==> r is None),
{
    if k == 1 {
        let c = s.get_char(0);
        if c == 'A' {
            Some(0)
        } else if c == 'B' {
            Some(2)
        } else if c == 'C' {
            Some(-9)
        } else if c == 'D' {
            Some(-7)
        } else if c == 'E' {
            Some(-5)
        } else if c == 'F' {
            Some(-4)
        } else if c == 'G' {
            Some(-2)
        } else {
            None
        }
    } else if k == 2 {
        let c0 = s.get_char(0);
        let c1 = s.get_char(1);
        if c1 == '#' {
            if c0 == 'A' {
                Some(1)
            } else if c0 == 'C' {
                Some(-8)
            } else if c0 == 'D' {
                Some(-6)
            } else if c0 == 'F' {
                Some(-3)
            } else if c0 == 'G' {
                Some(-1)
            } else {
                None
            }
        } else if c1 == 'b' {
            if c0 == 'B' {
                Some(1)
            } else if c0 == 'D' {
                Some(-8)
            } else if c0 == 'E' {
                Some(-6)
            } else if c0 == 'G' {
                Some(-3)
            } else if c0 == 'A' {
                Some(-1)
            } else {
                None
            }
        } else {
            None
        }
    } else {
        None
    }
}

/// Resolves a pitch string to its semitone offset from the 440 Hz reference
/// pitch, or reports that its note name is not in the semitone table.
///
/// The frequency in Hertz is `440 * 2^(offset / 12)`.
pub fn semitones_from_a4(s: &str) -> (r: Result<i32, ResolutionError>)
    ensures
        (pitch_semitones(s@) matches Some(v) ==> (r matches Ok(x) && x as int == v)),
        (pitch_semitones(s@) is None ==> (r matches Err(e) && e == ResolutionError::UnknownNoteName)),
{
    let n = s.unicode_len();
    let mut k: usize = 0;
    while k < n && !digit_exec(s.get_char(k))
        invariant
            0 <= k <= n,
            n == s@.len(),
            first_digit(s@, 0) == first_digit(s@, k as int),
        decreases n - k,
    {
        k = k + 1;
    }
    if k == n {
        return Err(ResolutionError::UnknownNoteName);
    }
    let octave_char = s.get_char(k);
    let octave = (octave_char as u32 - '0' as u32) as i32;
    match half_steps_exec(s, k) {
        Some(h) => Ok((octave - 4) * 12 + h),
        None => Err(ResolutionError::UnknownNoteName),
    }
}

/// `10^e` as a machine integer.
fn pow10_exec(e: u32) -> (r: u64)
    requires
        e <= 18,
    ensures
        r as int == pow10(e as int),
{
    proof {
        lemma_pow10_18();
    }
    let mut r: u64 = 1;
    let mut k: u32 = 0;
    while k < e
        invariant
            0 <= k <= e <= 18,
            r as int == pow10(k as int),
            pow10(18) == 1000000000000000000,
        decreases e - k,
    {
        proof {
            lemma_pow10_mono(k as int + 1, 18);
        }
        r = r * 10;
        k = k + 1;
    }
    r
}

/// Resolves a tempo and a duration multiplier to an exact number of
/// seconds: `(60 / bpm) * multiplier`, as the ratio
/// `60 * multiplier / bpm`.  A tempo of zero beats per minute is rejected.
pub fn resolve_duration(bpm: &Decimal, multiplier: &Decimal) -> (r: Result<Ratio, ResolutionError>)
    requires
        dec_wf(*bpm),
        dec_wf(*multiplier),
    ensures
        bpm.mantissa == 0 ==> (r matches Err(e) && e == ResolutionError::NonPositiveTempo),
        bpm.mantissa != 0 ==> (r matches Ok(q) && q.num == 60 * multiplier.mantissa * pow10(
            bpm.scale as int,
        ) && q.den == bpm.mantissa * pow10(multiplier.scale as int) && q.den > 0),
{
    if bpm.mantissa == 0 {
        return Err(ResolutionError::NonPositiveTempo);
    }
    proof {
        lemma_pow10_18();
    }
    let pb = pow10_exec(bpm.scale) as u128;
    let pm = pow10_exec(multiplier.scale) as u128;
    let mm = multiplier.mantissa as u128;
    let bm = bpm.mantissa as u128;
    proof {
        lemma_pow10_mono(bpm.scale as int, 18);
        lemma_pow10_mono(multiplier.scale as int, 18);
        assert(60 * mm * pb < 0x1_0000_0000_0000_0000_0000_0000_0000_0000) by (nonlinear_arith)
            requires
                mm < 1000000000000000000,
                0 < pb <= 1000000000000000000,
        ;
        assert(bm * pm < 0x1_0000_0000_0000_0000_0000_0000_0000_0000) by (nonlinear_arith)
            requires
                bm < 1000000000000000000,
                0 < pm <= 1000000000000000000,
        ;
        assert(bm * pm > 0) by (nonlinear_arith)
            requires
                bm > 0,
                pm > 0,
        ;
    }
    Ok(Ratio { num: 60 * mm * pb, den: bm * pm })
}

/// The semitone offset of `name` followed by one octave digit: the name is
/// looked up in the table and the digit is the octave.
pub proof fn lemma_pitch_semitones_of_parts(name: Seq<char>, o: char)
    requires
        half_steps_of(name) is Some,
        is_digit(o),
    ensures
        pitch_semitones(name.push(o)) == Some(
            (digit_val(o) - 4) * 12 + half_steps_of(name)->Some_0,
        ),
{
    let p = name.push(o);
    assert(!is_digit(name[0]));
    if name.len() == 2 {
        assert(!is_digit(name[1]));
    }
    lemma_first_digit(p, 0);
    let k = first_digit(p, 0);
    assert(p[name.len() as int] == o);
    if k > name.len() {
        assert(!is_digit(p[name.len() as int]));
        assert(false);
    }
    if k < name.len() {
        assert(is_digit(p[k]));
        assert(p[k] == name[k]);
        assert(false);
    }
    assert(k == name.len());
    assert(p.subrange(0, k) =~= name);
    assert(p[k] == o);
}

/// For a fixed note name, the semitone offset (and with it the frequency
/// `440 * 2^(offset / 12)`) grows strictly with the octave digit: each
/// octave is twelve semitones up.
pub proof fn lemma_octave_monotonic(name: Seq<char>, o1: char, o2: char)
    requires
        half_steps_of(name) is Some,
        is_digit(o1),
        is_digit(o2),
        o1 < o2,
    ensures
        pitch_semitones(name.push(o1)) is Some,
        pitch_semitones(name.push(o2)) is Some,
        pitch_semitones(name.push(o1))->Some_0 < pitch_semitones(name.push(o2))->Some_0,
{
    lemma_pitch_semitones_of_parts(name, o1);
    lemma_pitch_semitones_of_parts(name, o2);
}

/// A sharp and the flat of the next letter name an identical pitch: in any
/// one octave, A#/Bb, C#/Db, D#/Eb, F#/Gb and G#/Ab resolve to the same
/// semitone offset, hence the same frequency.
pub proof fn lemma_accidental_alias(o: char)
    requires
        is_digit(o),
    ensures
        pitch_semitones(seq!['A', '#', o]) == pitch_semitones(seq!['B', 'b', o]),
        pitch_semitones(seq!['C', '#', o]) == pitch_semitones(seq!['D', 'b', o]),
        pitch_semitones(seq!['D', '#', o]) == pitch_semitones(seq!['E', 'b', o]),
        pitch_semitones(seq!['F', '#', o]) == pitch_semitones(seq!['G', 'b', o]),
        pitch_semitones(seq!['G', '#', o]) == pitch_semitones(seq!['A', 'b', o]),
        pitch_semitones(seq!['A', '#', o]) is Some,
        pitch_semitones(seq!['C', '#', o]) is Some,
        pitch_semitones(seq!['D', '#', o]) is Some,
        pitch_semitones(seq!['F', '#', o]) is Some,
        pitch_semitones(seq!['G', '#', o]) is Some,
{
    assert(seq!['A', '#', o] =~= seq!['A', '#'].push(o));
    assert(seq!['B', 'b', o] =~= seq!['B', 'b'].push(o));
    assert(seq!['C', '#', o] =~= seq!['C', '#'].push(o));
    assert(seq!['D', 'b', o] =~= seq!['D', 'b'].push(o));
    assert(seq!['D', '#', o] =~= seq!['D', '#'].push(o));
    assert(seq!['E', 'b', o] =~= seq!['E', 'b'].push(o));
    assert(seq!['F', '#', o] =~= seq!['F', '#'].push(o));
    assert(seq!['G', 'b', o] =~= seq!['G', 'b'].push(o));
    assert(seq!['G', '#', o] =~= seq!['G', '#'].push(o));
    assert(seq!['A', 'b', o] =~= seq!['A', 'b'].push(o));
    lemma_pitch_semitones_of_parts(seq!['A', '#'], o);
    lemma_pitch_semitones_of_parts(seq!['B', 'b'], o);
    lemma_pitch_semitones_of_parts(seq!['C', '#'], o);
    lemma_pitch_semitones_of_parts(seq!['D', 'b'], o);
    lemma_pitch_semitones_of_parts(seq!['D', '#'], o);
    lemma_pitch_semitones_of_parts(seq!['E', 'b'], o);
    lemma_pitch_semitones_of_parts(seq!['F', '#'], o);
    lemma_pitch_semitones_of_parts(seq!['G', 'b'], o);
    lemma_pitch_semitones_of_parts(seq!['G', '#'], o);
    lemma_pitch_semitones_of_parts(seq!['A', 'b'], o);
}

/// Why a compilation failed: the failing stage's own failure.
#[derive(Debug)]
pub enum CompileError {
    Lex(LexError),
    Parse(ParseError),
    Resolution(ResolutionError),
}

/// The mathematical model of a compilation failure.
pub ghost enum CompileErr {
    Lex(LexErr),
    Parse(crate::ast::ParseErr),
    Resolution(ResolutionError),
}

impl View for CompileError {
    type V = CompileErr;

    open spec fn view(&self) -> CompileErr {
        match self {
            CompileError::Lex(e) => CompileErr::Lex(e@),
            CompileError::Parse(e) => CompileErr::Parse(e@),
            CompileError::Resolution(e) => CompileErr::Resolution(*e),
        }
    }
}

/// A tempo and an ordered list of notes, distilled from a parsed program:
/// the last tempo declaration and the last note sheet win, with 120 beats
/// per minute and no notes as the defaults.
#[derive(Debug)]
pub struct MusicSheet {
    bpm: Decimal,
    notes: Vec<Note>,
}

/// The mathematical model of a music sheet.
pub ghost struct MusicSheetV {
    pub bpm: Decimal,
    pub notes: Seq<NoteV>,
}

impl View for MusicSheet {
    type V = MusicSheetV;

    closed spec fn view(&self) -> MusicSheetV {
        MusicSheetV { bpm: self.bpm, notes: notes_view(self.notes@) }
    }
}

/// The default tempo, in beats per minute.
pub open spec fn default_bpm() -> Decimal {
    Decimal { mantissa: 120, scale: 0 }
}

/// Folds a program's statements into a sheet, in source order: a later
/// tempo declaration or note sheet overwrites an earlier one.
pub open spec fn sheet_fold(stmts: Seq<AstV>, bpm: Decimal, notes: Seq<NoteV>) -> MusicSheetV
    decreases stmts.len(),
{
    if stmts.len() == 0 {
        MusicSheetV { bpm, notes }
    } else {
        match stmts[0] {
            AstV::Bpm(d) => sheet_fold(stmts.drop_first(), d, notes),
            AstV::MusicSheet(ns) => sheet_fold(stmts.drop_first(), bpm, ns),
            AstV::Play => sheet_fold(stmts.drop_first(), bpm, notes),
        }
    }
}

/// The model of reading a source text into a sheet: scan, parse, fold.
pub open spec fn read_spec(s: Seq<char>) -> Result<MusicSheetV, CompileErr> {
    match scan_spec(s, 0, 1, Seq::empty()) {
        Err(e) => Err(CompileErr::Lex(e)),
        Ok(ts) => match parse_program_spec(ts, 0, Seq::empty()) {
            Err(e) => Err(CompileErr::Parse(e)),
            Ok(stmts) => Ok(sheet_fold(stmts, default_bpm(), Seq::empty())),
        },
    }
}

proof fn lemma_sheet_fold_wf(stmts: Seq<AstV>, bpm: Decimal, notes: Seq<NoteV>)
    requires
        astvs_wf(stmts),
        dec_wf(bpm),
        notevs_wf(notes),
    ensures
        dec_wf(sheet_fold(stmts, bpm, notes).bpm),
        notevs_wf(sheet_fold(stmts, bpm, notes).notes),
    decreases stmts.len(),
{
    if stmts.len() > 0 {
        assert(astv_wf(stmts[0]));
        assert(astvs_wf(stmts.drop_first())) by {
            assert(forall|k: int|
                0 <= k < stmts.drop_first().len() ==> #[trigger] astv_wf(stmts.drop_first()[k]));
        }
        match stmts[0] {
            AstV::Bpm(d) => lemma_sheet_fold_wf(stmts.drop_first(), d, notes),
            AstV::MusicSheet(ns) => lemma_sheet_fold_wf(stmts.drop_first(), bpm, ns),
            AstV::Play => lemma_sheet_fold_wf(stmts.drop_first(), bpm, notes),
        }
    }
}

/// Every decimal a successful read produces came through the scanner, so
/// it has at most eighteen digits.
pub proof fn lemma_read_wf(s: Seq<char>)
    ensures
        read_spec(s) matches Ok(sv) ==> dec_wf(sv.bpm) && notevs_wf(sv.notes),
{
    lemma_pow10_18();
    assert(toks_wf(Seq::<Tok>::empty()));
    lemma_scan_wf(s, 0, 1, Seq::empty());
    match scan_spec(s, 0, 1, Seq::empty()) {
        Ok(ts) => {
            assert(astvs_wf(Seq::<AstV>::empty()));
            lemma_parse_program_wf(ts, 0, Seq::empty());
            match parse_program_spec(ts, 0, Seq::empty()) {
                Ok(stmts) => {
                    assert(notevs_wf(Seq::<NoteV>::empty()));
                    lemma_sheet_fold_wf(stmts, default_bpm(), Seq::empty());
                },
                Err(_) => {},
            }
        },
        Err(_) => {},
    }
}

impl MusicSheet {
    /// A sheet with the default tempo of 120 beats per minute and no notes.
    pub fn new() -> (s: MusicSheet)
        ensures
            s@ == (MusicSheetV { bpm: default_bpm(), notes: Seq::<NoteV>::empty() }),
    {
        let s = MusicSheet { bpm: Decimal { mantissa: 120, scale: 0 }, notes: Vec::new() };
        proof {
            assert(notes_view(s.notes@) =~= Seq::<NoteV>::empty());
        }
        s
    }

    /// The sheet's tempo, in beats per minute.
    pub fn bpm(&self) -> (d: &Decimal)
        ensures
            *d == self@.bpm,
    {
        &self.bpm
    }

    /// The sheet's notes, in source order.
    pub fn notes(&self) -> (v: &Vec<Note>)
        ensures
            notes_view(v@) == self@.notes,
    {
        &self.notes
    }

    /// Scans and parses a source text into its statements, surfacing the
    /// first lexical or syntactic failure.
    pub fn parse_music_file(source: &str) -> (r: Result<Vec<AstNode>, CompileError>)
        requires
            source@.len() < usize::MAX,
        ensures
            (scan_spec(source@, 0, 1, Seq::empty()) matches Err(e) ==> (r matches Err(ce) && ce@
                == CompileErr::Lex(e))),
            (scan_spec(source@, 0, 1, Seq::empty()) matches Ok(ts) ==> match parse_program_spec(
                ts,
                0,
                Seq::empty(),
            ) {
                Err(e) => r matches Err(ce) && ce@ == CompileErr::Parse(e),
                Ok(stmts) => r matches Ok(v) && nodes_view(v@) == stmts,
            }),
    {
        let tokens = match tokenize(source) {
            Ok(tokens) => tokens,
            Err(e) => {
                return Err(CompileError::Lex(e));
            },
        };
        let mut parser = Parser::new(tokens);
        match parser.parse_program() {
            Ok(nodes) => Ok(nodes),
            Err(e) => Err(CompileError::Parse(e)),
        }
    }

    /// Reads a source text into a sheet: the last tempo declaration and the
    /// last note sheet win, with the defaults where a program has neither.
    pub fn read(source: &str) -> (r: Result<MusicSheet, CompileError>)
        requires
            source@.len() < usize::MAX,
        ensures
            (read_spec(source@) matches Ok(sv) ==> (r matches Ok(sheet) && sheet@ == sv)),
            (read_spec(source@) matches Err(e) ==> (r matches Err(ce) && ce@ == e)),
    {
        let mut ast = match Self::parse_music_file(source) {
            Ok(ast) => ast,
            Err(e) => {
                return Err(e);
            },
        };
        let mut sheet = MusicSheet::new();
        let ghost stmts = nodes_view(ast@);
        let ghost target = sheet_fold(stmts, default_bpm(), Seq::empty());
        while ast.len() > 0
            invariant
                sheet_fold(nodes_view(ast@), sheet.bpm, notes_view(sheet.notes@))
                    == target,
            decreases ast.len(),
        {
            let ghost pre = nodes_view(ast@);
            let node = ast.remove(0);
            proof {
                assert(nodes_view(ast@) =~= pre.drop_first());
                assert(node@ == pre[0]);
            }
            match node {
                AstNode::Bpm(d) => {
                    sheet.bpm = d;
                },
                AstNode::MusicSheet { notes } => {
                    sheet.notes = notes;
                },
                AstNode::PlayKeyword => {},
            }
        }
        proof {
            assert(nodes_view(ast@) =~= Seq::<AstV>::empty());
        }
        Ok(sheet)
    }

    /// Resolves one duration multiplier against this sheet's tempo:
    /// `(60 / bpm) * note_value` seconds, exactly.
    pub fn calc_note_duration(&self, note_value: &Decimal) -> (r: Result<Ratio, ResolutionError>)
        requires
            dec_wf(self@.bpm),
            dec_wf(*note_value),
        ensures
            self@.bpm.mantissa == 0 ==> (r matches Err(e) && e == ResolutionError::NonPositiveTempo),
            self@.bpm.mantissa != 0 ==> (r matches Ok(q) && q.num == 60 * note_value.mantissa
                * pow10(self@.bpm.scale as int) && q.den == self@.bpm.mantissa * pow10(
                note_value.scale as int,
            ) && q.den > 0),
    {
        resolve_duration(&self.bpm, note_value)
    }
}

/// One timed pitch event: the note's semitone offset from the 440 Hz
/// reference pitch (the frequency in Hertz is `440 * 2^(semitones / 12)`)
/// and its exact duration in seconds.
#[derive(Clone, Copy, PartialEq, Eq, Structural, Debug)]
pub struct NoteEvent {
    pub semitones: i32,
    pub duration: Ratio,
}

/// The event a note entry resolves to under a tempo, or the failure: an
/// unknown note name, or a tempo of zero.
pub open spec fn event_of(bpm: Decimal, n: NoteV) -> Result<NoteEvent, ResolutionError> {
    match pitch_semitones(n.pitch) {
        None => Err(ResolutionError::UnknownNoteName),
        Some(v) => if bpm.mantissa == 0 {
            Err(ResolutionError::NonPositiveTempo)
        } else {
            Ok(
                NoteEvent {
                    semitones: v as i32,
                    duration: Ratio {
                        num: (60 * n.duration.mantissa * pow10(bpm.scale as int)) as u128,
                        den: (bpm.mantissa * pow10(n.duration.scale as int)) as u128,
                    },
                },
            )
        },
    }
}

/// The events of the notes from position `k` on, appended to `acc`, or the
/// first resolution failure.
pub open spec fn events_spec(bpm: Decimal, ns: Seq<NoteV>, k: int, acc: Seq<NoteEvent>) -> Result<
    Seq<NoteEvent>,
    ResolutionError,
>
    decreases ns.len() - k,
{
    if !(0 <= k < ns.len()) {
        Ok(acc)
    } else {
        match event_of(bpm, ns[k]) {
            Err(e) => Err(e),
            Ok(ev) => events_spec(bpm, ns, k + 1, acc.push(ev)),
        }
    }
}

/// The model of the whole pipeline: scan, parse, fold, resolve each note
/// in order.
pub open spec fn compile_spec(s: Seq<char>) -> Result<Seq<NoteEvent>, CompileErr> {
    match read_spec(s) {
        Err(e) => Err(e),
        Ok(sv) => match events_spec(sv.bpm, sv.notes, 0, Seq::empty()) {
            Err(e) => Err(CompileErr::Resolution(e)),
            Ok(evs) => Ok(evs),
        },
    }
}

/// Compiles a source text into its ordered timed pitch events, or the
/// first failure of any stage.  This is the sequence a playback collaborator
/// consumes in order.
pub fn compile_to_events(source: &str) -> (r: Result<Vec<NoteEvent>, CompileError>)
    requires
        source@.len() < usize::MAX,
    ensures
        (compile_spec(source@) matches Ok(evs) ==> (r matches Ok(v) && v@ == evs)),
        (compile_spec(source@) matches Err(e) ==> (r matches Err(ce) && ce@ == e)),
{
    let sheet = match MusicSheet::read(source) {
        Ok(sheet) => sheet,
        Err(e) => {
            return Err(e);
        },
    };
    proof {
        lemma_read_wf(source@);
    }
    let ghost sv = sheet@;
    let mut events: Vec<NoteEvent> = Vec::new();
    let n = sheet.notes.len();
    let mut idx: usize = 0;
    while idx < n
        invariant
            0 <= idx <= n,
            n == sheet.notes@.len(),
            read_spec(source@) == Ok::<MusicSheetV, CompileErr>(sv),
            sheet@ == sv,
            sv.notes == notes_view(sheet.notes@),
            dec_wf(sv.bpm),
            notevs_wf(sv.notes),
            events_spec(sv.bpm, sv.notes, idx as int, events@) == events_spec(
                sv.bpm,
                sv.notes,
                0,
                Seq::empty(),
            ),
        decreases n - idx,
    {
        let note = &sheet.notes[idx];
        proof {
            assert(note@ == sv.notes[idx as int]);
            assert(notev_wf(sv.notes[idx as int]));
        }
        let semis = match semitones_from_a4(note.note.as_str()) {
            Ok(v) => v,
            Err(e) => {
                return Err(CompileError::Resolution(e));
            },
        };
        let duration = match resolve_duration(&sheet.bpm, &note.duration) {
            Ok(q) => q,
            Err(e) => {
                return Err(CompileError::Resolution(e));
            },
        };
        events.push(NoteEvent { semitones: semis, duration });
        idx = idx + 1;
    }
    Ok(events)
}

} // verus!

//! Character-level scanner.
//!
//! [`Lexer`] turns a character sequence into lexemes, each tagged with the
//! 1-based line of the character that produced it (for a multi-character
//! run, its first character; whitespace that merely ends a run stamps
//! nothing). The scanner
//! keeps two mode flags: *literal* (inside a quoted value) and *content*
//! (between `>` and the next `<`, where every character except `<` is plain
//! text). The spec function [`scan_run`] states exactly which lexeme the next
//! call produces and how the scanner state moves; [`Lexer::next`] is proved
//! equal to it.

use vstd::prelude::*;
use vstd::string::StrSliceExecFns;

verus! {

/// The characters of the Unicode `White_Space` set, the set that
/// `char::is_whitespace` recognises.
pub open spec fn is_space_char(c: char) -> bool {
    c == ' ' || c == '\t' || c == '\n' || c == '\u{b}' || c == '\u{c}' || c == '\r'
        || c == '\u{85}' || c == '\u{a0}' || c == '\u{1680}' || c == '\u{2000}'
        || c == '\u{2001}' || c == '\u{2002}' || c == '\u{2003}' || c == '\u{2004}'
        || c == '\u{2005}' || c == '\u{2006}' || c == '\u{2007}' || c == '\u{2008}'
        || c == '\u{2009}' || c == '\u{200a}' || c == '\u{2028}' || c == '\u{2029}'
        || c == '\u{202f}' || c == '\u{205f}' || c == '\u{3000}'
}

/// Whether `c` is a whitespace character.
pub fn is_space(c: char) -> (r: bool)
    ensures
        r == is_space_char(c),
{
    c == ' ' || c == '\t' || c == '\n' || c == '\u{b}' || c == '\u{c}' || c == '\r'
        || c == '\u{85}' || c == '\u{a0}' || c == '\u{1680}' || c == '\u{2000}'
        || c == '\u{2001}' || c == '\u{2002}' || c == '\u{2003}' || c == '\u{2004}'
        || c == '\u{2005}' || c == '\u{2006}' || c == '\u{2007}' || c == '\u{2008}'
        || c == '\u{2009}' || c == '\u{200a}' || c == '\u{2028}' || c == '\u{2029}'
        || c == '\u{202f}' || c == '\u{205f}' || c == '\u{3000}'
}

/// The kind of a lexeme: a structural character, a bare identifier or text
/// run, or a quoted literal.
#[derive(Debug, Clone, PartialEq)]
pub enum LexemeType {
    BracketLeft,
    BracketRight,
    Identifier(String),
    Equals,
    EndSlash,
    Literal(String),
}

/// Mathematical mirror of [`LexemeType`], over character sequences.
pub enum TokenModel {
    BracketLeft,
    BracketRight,
    Identifier(Seq<char>),
    Equals,
    EndSlash,
    Literal(Seq<char>),
}

impl View for LexemeType {
    type V = TokenModel;

    open spec fn view(&self) -> TokenModel {
        match self {
            LexemeType::BracketLeft => TokenModel::BracketLeft,
            LexemeType::BracketRight => TokenModel::BracketRight,
            LexemeType::Identifier(s) => TokenModel::Identifier(s@),
            LexemeType::Equals => TokenModel::Equals,
            LexemeType::EndSlash => TokenModel::EndSlash,
            LexemeType::Literal(s) => TokenModel::Literal(s@),
        }
    }
}

/// One lexeme together with the 1-based line of the character that began
/// it.
#[derive(Debug, Clone)]
pub struct Lexeme {
    pub line: u64,
    pub kind: LexemeType,
}

/// Mathematical mirror of [`Lexeme`].
pub struct LexemeModel {
    pub line: int,
    pub kind: TokenModel,
}

impl View for Lexeme {
    type V = LexemeModel;

    open spec fn view(&self) -> LexemeModel {
        LexemeModel { line: self.line as int, kind: self.kind@ }
    }
}

impl Lexeme {
    /// The 1-based line of the character that began this lexeme.
    pub fn line(&self) -> (r: u64)
        ensures
            r as int == self@.line,
    {
        self.line
    }

    /// The lexeme's kind.
    pub fn kind(&self) -> (r: &LexemeType)
        ensures
            r@ == self@.kind,
    {
        &self.kind
    }
}

impl PartialEq for Lexeme {
    /// Lexemes compare by kind alone: the line a lexeme sits on does not
    /// change what it is.
    fn eq(&self, other: &Lexeme) -> (r: bool)
        ensures
            r == (self@.kind == other@.kind),
    {
        match (&self.kind, &other.kind) {
            (LexemeType::BracketLeft, LexemeType::BracketLeft) => true,
            (LexemeType::BracketRight, LexemeType::BracketRight) => true,
            (LexemeType::Equals, LexemeType::Equals) => true,
            (LexemeType::EndSlash, LexemeType::EndSlash) => true,
            (LexemeType::Identifier(a), LexemeType::Identifier(b)) => a.eq(b),
            (LexemeType::Literal(a), LexemeType::Literal(b)) => a.eq(b),
            _ => false,
        }
    }
}

impl vstd::std_specs::cmp::PartialEqSpecImpl for Lexeme {
    open spec fn obeys_eq_spec() -> bool {
        true
    }

    open spec fn eq_spec(&self, other: &Lexeme) -> bool {
        self@.kind == other@.kind
    }
}

/// The scanner's cursor: position in the input, current line, and the two
/// mode flags.
pub struct ScanState {
    pub pos: int,
    pub line: int,
    pub content: bool,
    pub literal: bool,
}

/// The lexeme a finished character run flushes to: a literal when the run
/// began with an opening quote in tag mode, a plain identifier or text run
/// otherwise.
pub open spec fn flush_token(collected: Seq<char>, lit_run: bool) -> TokenModel {
    if lit_run {
        TokenModel::Literal(collected)
    } else {
        TokenModel::Identifier(collected)
    }
}

/// The line a flushed run is stamped with: the line of its first character
/// (`start`), or, for the empty run that only an input ending in skipped
/// whitespace produces, the line reached there.
pub open spec fn stamp_of(start: Option<int>, line: int) -> int {
    match start {
        Some(l) => l,
        None => line,
    }
}

/// The run's starting line once a first character joins it: `line` if no
/// character has yet, the recorded start otherwise.
pub open spec fn run_start(start: Option<int>, line: int) -> Option<int> {
    match start {
        Some(l) => Some(l),
        None => Some(line),
    }
}

/// The view of an optional line number.
pub open spec fn line_opt_view(o: Option<u64>) -> Option<int> {
    match o {
        Some(l) => Some(l as int),
        None => None,
    }
}

/// One scanner call: consumes characters from `st.pos` until a lexeme is
/// complete, returning the lexeme, the line it is stamped with, and the
/// state left behind.
///
/// `collected` is the run of pending characters, `lit_run` records whether
/// that run began with an opening quote, and `start` the line of the run's
/// first character. The rules, per character `c`: in literal mode `"`
/// flushes the run and anything else is collected; in content mode
/// everything but `<` is collected, while `<` leaves content mode and either
/// flushes a pending run (without consuming the `<`) or emits `BracketLeft`;
/// otherwise `<` `>` `/` `=` emit their structural lexeme when no run is
/// pending and flush the pending run (unconsumed) when one is, `"` opens a
/// literal, whitespace is skipped or ends a pending run (consuming the
/// whitespace), and any other character joins the run. The line counter
/// steps exactly at each consumed `\n`; a structural lexeme is stamped with
/// its own character's line, a run with its first character's line —
/// whatever the scanner consumes after it, a terminating newline included.
pub open spec fn scan_run(
    text: Seq<char>,
    st: ScanState,
    collected: Seq<char>,
    lit_run: bool,
    start: Option<int>,
) -> (TokenModel, int, ScanState)
    decreases text.len() - st.pos,
{
    if st.pos < 0 || st.pos >= text.len() {
        (flush_token(collected, lit_run), stamp_of(start, st.line), st)
    } else {
        let c = text[st.pos];
        let nline = if c == '\n' { st.line + 1 } else { st.line };
        if st.literal {
            if c == '"' {
                (
                    flush_token(collected, lit_run),
                    stamp_of(start, st.line),
                    ScanState { pos: st.pos + 1, line: nline, content: st.content, literal: false },
                )
            } else {
                scan_run(
                    text,
                    ScanState { pos: st.pos + 1, line: nline, content: st.content, literal: true },
                    collected.push(c),
                    lit_run,
                    run_start(start, st.line),
                )
            }
        } else if st.content {
            if c == '<' {
                if collected.len() > 0 {
                    (
                        flush_token(collected, lit_run),
                        stamp_of(start, st.line),
                        ScanState { pos: st.pos, line: st.line, content: false, literal: false },
                    )
                } else {
                    (
                        TokenModel::BracketLeft,
                        st.line,
                        ScanState { pos: st.pos + 1, line: st.line, content: false, literal: false },
                    )
                }
            } else {
                scan_run(
                    text,
                    ScanState { pos: st.pos + 1, line: nline, content: true, literal: false },
                    collected.push(c),
                    lit_run,
                    run_start(start, st.line),
                )
            }
        } else if c == '<' {
            if collected.len() == 0 {
                (
                    TokenModel::BracketLeft,
                    st.line,
                    ScanState { pos: st.pos + 1, line: st.line, content: false, literal: false },
                )
            } else {
                (flush_token(collected, lit_run), stamp_of(start, st.line), st)
            }
        } else if c == '>' {
            if collected.len() == 0 {
                (
                    TokenModel::BracketRight,
                    st.line,
                    ScanState { pos: st.pos + 1, line: st.line, content: true, literal: false },
                )
            } else {
                (flush_token(collected, lit_run), stamp_of(start, st.line), st)
            }
        } else if c == '/' {
            if collected.len() == 0 {
                (
                    TokenModel::EndSlash,
                    st.line,
                    ScanState { pos: st.pos + 1, line: st.line, content: false, literal: false },
                )
            } else {
                (flush_token(collected, lit_run), stamp_of(start, st.line), st)
            }
        } else if c == '=' {
            if collected.len() == 0 {
                (
                    TokenModel::Equals,
                    st.line,
                    ScanState { pos: st.pos + 1, line: st.line, content: false, literal: false },
                )
            } else {
                (flush_token(collected, lit_run), stamp_of(start, st.line), st)
            }
        } else if c == '"' {
            if collected.len() == 0 {
                scan_run(
                    text,
                    ScanState { pos: st.pos + 1, line: nline, content: false, literal: true },
                    collected,
                    true,
                    run_start(start, st.line),
                )
            } else {
                scan_run(
                    text,
                    ScanState { pos: st.pos + 1, line: nline, content: false, literal: true },
                    collected.push(c),
                    lit_run,
                    run_start(start, st.line),
                )
            }
        } else if is_space_char(c) {
            if collected.len() == 0 {
                scan_run(
                    text,
                    ScanState { pos: st.pos + 1, line: nline, content: false, literal: false },
                    collected,
                    lit_run,
                    start,
                )
            } else {
                (
                    flush_token(collected, lit_run),
                    stamp_of(start, st.line),
                    ScanState { pos: st.pos + 1, line: nline, content: false, literal: false },
                )
            }
        } else {
            scan_run(
                text,
                ScanState { pos: st.pos + 1, line: nline, content: false, literal: false },
                collected.push(c),
                lit_run,
                run_start(start, st.line),
            )
        }
    }
}

/// What one call of [`Lexer::next`] yields from state `st`: `None` at end of
/// input, otherwise the next lexeme — stamped with the line of the character
/// that began it — and the state left behind.
pub open spec fn lex_next(text: Seq<char>, st: ScanState) -> Option<(LexemeModel, ScanState)> {
    if st.pos >= text.len() {
        None
    } else {
        let (kind, stamp, st2) = scan_run(text, st, Seq::<char>::empty(), false, None);
        Some((LexemeModel { line: stamp, kind }, st2))
    }
}

/// The scanner's starting state: position 0, line 1, tag mode.
pub open spec fn initial_scan_state() -> ScanState {
    ScanState { pos: 0, line: 1, content: false, literal: false }
}

/// The number of newline characters in `text[lo..hi]`.
pub open spec fn newline_count(text: Seq<char>, lo: int, hi: int) -> int
    decreases hi - lo,
{
    if lo >= hi {
        0
    } else {
        (if text[lo] == '\n' {
            1int
        } else {
            0int
        }) + newline_count(text, lo + 1, hi)
    }
}

/// A scanner call never moves the cursor backwards or past the end of the
/// input.
pub proof fn lemma_scan_run_range(
    text: Seq<char>,
    st: ScanState,
    collected: Seq<char>,
    lit_run: bool,
    start: Option<int>,
)
    requires
        0 <= st.pos <= text.len(),
    ensures
        st.pos <= scan_run(text, st, collected, lit_run, start).2.pos <= text.len(),
    decreases text.len() - st.pos,
{
    if st.pos < text.len() {
        let c = text[st.pos];
        let nline = if c == '\n' { st.line + 1 } else { st.line };
        let nstart = run_start(start, st.line);
        if st.literal {
            if c != '"' {
                let stn = ScanState { pos: st.pos + 1, line: nline, content: st.content, literal: true };
                lemma_scan_run_range(text, stn, collected.push(c), lit_run, nstart);
            }
        } else if st.content {
            if c != '<' {
                let stn = ScanState { pos: st.pos + 1, line: nline, content: true, literal: false };
                lemma_scan_run_range(text, stn, collected.push(c), lit_run, nstart);
            }
        } else if c == '<' || c == '>' || c == '/' || c == '=' {
        } else if c == '"' {
            let stn = ScanState { pos: st.pos + 1, line: nline, content: false, literal: true };
            if collected.len() == 0 {
                lemma_scan_run_range(text, stn, collected, true, nstart);
            } else {
                lemma_scan_run_range(text, stn, collected.push(c), lit_run, nstart);
            }
        } else if is_space_char(c) {
            let stn = ScanState { pos: st.pos + 1, line: nline, content: false, literal: false };
            if collected.len() == 0 {
                lemma_scan_run_range(text, stn, collected, lit_run, start);
            }
        } else {
            let stn = ScanState { pos: st.pos + 1, line: nline, content: false, literal: false };
            lemma_scan_run_range(text, stn, collected.push(c), lit_run, nstart);
        }
    }
}

/// A scanner call that starts a fresh run on a remaining input consumes at
/// least one character.
pub proof fn lemma_scan_run_progress(
    text: Seq<char>,
    st: ScanState,
    lit_run: bool,
    start: Option<int>,
)
    requires
        0 <= st.pos < text.len(),
    ensures
        st.pos < scan_run(text, st, Seq::<char>::empty(), lit_run, start).2.pos <= text.len(),
{
    let c = text[st.pos];
    let nline = if c == '\n' { st.line + 1 } else { st.line };
    let empty = Seq::<char>::empty();
    let nstart = run_start(start, st.line);
    if st.literal {
        if c != '"' {
            let stn = ScanState { pos: st.pos + 1, line: nline, content: st.content, literal: true };
            lemma_scan_run_range(text, stn, empty.push(c), lit_run, nstart);
        }
    } else if st.content {
        if c != '<' {
            let stn = ScanState { pos: st.pos + 1, line: nline, content: true, literal: false };
            lemma_scan_run_range(text, stn, empty.push(c), lit_run, nstart);
        }
    } else if c == '<' || c == '>' || c == '/' || c == '=' {
    } else if c == '"' {
        let stn = ScanState { pos: st.pos + 1, line: nline, content: false, literal: true };
        lemma_scan_run_range(text, stn, empty, true, nstart);
    } else if is_space_char(c) {
        let stn = ScanState { pos: st.pos + 1, line: nline, content: false, literal: false };
        lemma_scan_run_range(text, stn, empty, lit_run, start);
    } else {
        let stn = ScanState { pos: st.pos + 1, line: nline, content: false, literal: false };
        lemma_scan_run_range(text, stn, empty.push(c), lit_run, nstart);
    }
}

/// Line accounting: a scanner call advances the line counter by exactly the
/// number of newline characters between the old and the new cursor position,
/// whatever modes it passes through. (The characters a call leaves
/// unconsumed are never newlines, so every newline is counted exactly once
/// over a whole scan.)
#[verifier::spinoff_prover]
#[verifier::rlimit(30)]
pub proof fn lemma_scan_run_lines(
    text: Seq<char>,
    st: ScanState,
    collected: Seq<char>,
    lit_run: bool,
    start: Option<int>,
)
    requires
        0 <= st.pos <= text.len(),
    ensures
        ({
            let (_, _, st2) = scan_run(text, st, collected, lit_run, start);
            st2.line == st.line + newline_count(text, st.pos, st2.pos)
        }),
    decreases text.len() - st.pos,
{
    if st.pos < text.len() {
        let c = text[st.pos];
        let nline = if c == '\n' { st.line + 1 } else { st.line };
        let (_, _, st2) = scan_run(text, st, collected, lit_run, start);
        let nc = if c == '\n' { 1int } else { 0int };
        let nstart = run_start(start, st.line);
        if st.literal {
            if c != '"' {
                let stn = ScanState { pos: st.pos + 1, line: nline, content: st.content, literal: true };
                lemma_scan_run_lines(text, stn, collected.push(c), lit_run, nstart);
                lemma_scan_run_range(text, stn, collected.push(c), lit_run, nstart);
                assert(newline_count(text, st.pos, st2.pos) == nc + newline_count(text, st.pos + 1, st2.pos));
            }
        } else if st.content {
            if c != '<' {
                let stn = ScanState { pos: st.pos + 1, line: nline, content: true, literal: false };
                lemma_scan_run_lines(text, stn, collected.push(c), lit_run, nstart);
                lemma_scan_run_range(text, stn, collected.push(c), lit_run, nstart);
                assert(newline_count(text, st.pos, st2.pos) == nc + newline_count(text, st.pos + 1, st2.pos));
            }
        } else if c == '<' || c == '>' || c == '/' || c == '=' {
            if collected.len() == 0 {
                assert(newline_count(text, st.pos + 1, st.pos + 1) == 0);
                assert(newline_count(text, st.pos, st.pos + 1) == nc);
            }
        } else if c == '"' {
            let stn = ScanState { pos: st.pos + 1, line: nline, content: false, literal: true };
            if collected.len() == 0 {
                lemma_scan_run_lines(text, stn, collected, true, nstart);
                lemma_scan_run_range(text, stn, collected, true, nstart);
            } else {
                lemma_scan_run_lines(text, stn, collected.push(c), lit_run, nstart);
                lemma_scan_run_range(text, stn, collected.push(c), lit_run, nstart);
            }
            assert(newline_count(text, st.pos, st2.pos) == nc + newline_count(text, st.pos + 1, st2.pos));
        } else if is_space_char(c) {
            let stn = ScanState { pos: st.pos + 1, line: nline, content: false, literal: false };
            if collected.len() == 0 {
                lemma_scan_run_lines(text, stn, collected, lit_run, start);
                lemma_scan_run_range(text, stn, collected, lit_run, start);
                assert(newline_count(text, st.pos, st2.pos) == nc + newline_count(text, st.pos + 1, st2.pos));
            } else {
                assert(newline_count(text, st.pos + 1, st.pos + 1) == 0);
                assert(newline_count(text, st.pos, st.pos + 1) == nc);
            }
        } else {
            let stn = ScanState { pos: st.pos + 1, line: nline, content: false, literal: false };
            lemma_scan_run_lines(text, stn, collected.push(c), lit_run, nstart);
            lemma_scan_run_range(text, stn, collected.push(c), lit_run, nstart);
            assert(newline_count(text, st.pos, st2.pos) == nc + newline_count(text, st.pos + 1, st2.pos));
        }
    }
}

/// The line counter never moves backwards, and a stamp lies between the
/// run's recorded start (or the call's own line) and the line reached when
/// the lexeme completes.
pub proof fn lemma_scan_run_stamp(
    text: Seq<char>,
    st: ScanState,
    collected: Seq<char>,
    lit_run: bool,
    start: Option<int>,
)
    requires
        0 <= st.pos <= text.len(),
        match start {
            Some(l) => l <= st.line,
            None => true,
        },
    ensures
        ({
            let (_, stamp, st2) = scan_run(text, st, collected, lit_run, start);
            &&& st.line <= st2.line
            &&& stamp_of(start, st.line) <= stamp <= st2.line
        }),
    decreases text.len() - st.pos,
{
    if st.pos < text.len() {
        let c = text[st.pos];
        let nline = if c == '\n' { st.line + 1 } else { st.line };
        let nstart = run_start(start, st.line);
        if st.literal {
            if c != '"' {
                let stn = ScanState { pos: st.pos + 1, line: nline, content: st.content, literal: true };
                lemma_scan_run_stamp(text, stn, collected.push(c), lit_run, nstart);
            }
        } else if st.content {
            if c != '<' {
                let stn = ScanState { pos: st.pos + 1, line: nline, content: true, literal: false };
                lemma_scan_run_stamp(text, stn, collected.push(c), lit_run, nstart);
            }
        } else if c == '<' || c == '>' || c == '/' || c == '=' {
        } else if c == '"' {
            let stn = ScanState { pos: st.pos + 1, line: nline, content: false, literal: true };
            if collected.len() == 0 {
                lemma_scan_run_stamp(text, stn, collected, true, nstart);
            } else {
                lemma_scan_run_stamp(text, stn, collected.push(c), lit_run, nstart);
            }
        } else if is_space_char(c) {
            let stn = ScanState { pos: st.pos + 1, line: nline, content: false, literal: false };
            if collected.len() == 0 {
                lemma_scan_run_stamp(text, stn, collected, lit_run, start);
            }
        } else {
            let stn = ScanState { pos: st.pos + 1, line: nline, content: false, literal: false };
            lemma_scan_run_stamp(text, stn, collected.push(c), lit_run, nstart);
        }
    }
}

/// A produced lexeme is stamped with a line no earlier than the state's and
/// no later than the line reached when it completed, and the line counter
/// advances by exactly the newlines between the two cursor positions,
/// whatever modes the characters were scanned in. (Which line stamps which
/// lexeme is fixed by [`scan_run`] itself: a structural lexeme carries its
/// own character's line, a run its first character's.)
pub proof fn lemma_lex_next_lines(text: Seq<char>, st: ScanState)
    requires
        0 <= st.pos <= text.len(),
    ensures
        match lex_next(text, st) {
            Some((lm, st2)) => {
                &&& st.line <= lm.line <= st2.line
                &&& st2.line == st.line + newline_count(text, st.pos, st2.pos)
            },
            None => true,
        },
{
    if st.pos < text.len() {
        lemma_scan_run_lines(text, st, Seq::<char>::empty(), false, None);
        lemma_scan_run_stamp(text, st, Seq::<char>::empty(), false, None);
    }
}

/// A produced lexeme consumes at least one character; `None` comes only at
/// the end of the input.
pub proof fn lemma_lex_next_progress(text: Seq<char>, st: ScanState)
    requires
        0 <= st.pos <= text.len(),
    ensures
        match lex_next(text, st) {
            None => st.pos == text.len(),
            Some((_, st2)) => st.pos < st2.pos <= text.len(),
        },
{
    if st.pos < text.len() {
        lemma_scan_run_progress(text, st, false, None);
    }
}

/// Relies on `String`'s `FromIterator` implementation from std: collecting
/// characters yields the string of exactly those characters, in order.
#[verifier::external_body]
fn chars_to_string(v: &Vec<char>) -> (r: String)
    ensures
        r@ == v@,
{
    v.iter().collect()
}

/// The scanner: a cursor over a borrowed character sequence.
pub struct Lexer<'a> {
    pub text: &'a str,
    pub len: usize,
    pub pos: usize,
    pub line: u64,
    pub content: bool,
    pub literal: bool,
}

impl<'a> Lexer<'a> {
    /// The input being scanned.
    pub open spec fn input(&self) -> Seq<char> {
        self.text@
    }

    /// The scanner's current state.
    pub open spec fn st(&self) -> ScanState {
        ScanState {
            pos: self.pos as int,
            line: self.line as int,
            content: self.content,
            literal: self.literal,
        }
    }

    /// Well-formedness: the cursor is inside the input and the line counter
    /// cannot outrun the positions consumed.
    pub open spec fn wf(&self) -> bool {
        &&& self.len == self.text@.len()
        &&& self.pos <= self.len
        &&& 1 <= self.line
        &&& self.line as int <= 1 + self.pos as int
        &&& self.text@.len() < u64::MAX
    }

    /// A fresh scanner over `text`, at position 0, line 1, tag mode.
    ///
    /// The length bound is a machine limit: it keeps the line counter, which
    /// steps at most once per character, within `u64`.
    pub fn new(text: &'a str) -> (r: Lexer<'a>)
        requires
            text@.len() < u64::MAX,
        ensures
            r.wf(),
            r.input() == text@,
            r.st() == initial_scan_state(),
    {
        let len = text.unicode_len();
        Lexer { text, len, pos: 0, line: 1, content: false, literal: false }
    }

    /// The next lexeme, or `None` at end of input; exactly [`lex_next`].
    pub fn next(&mut self) -> (r: Option<Lexeme>)
        requires
            old(self).wf(),
        ensures
            final(self).wf(),
            final(self).input() == old(self).input(),
            match lex_next(old(self).input(), old(self).st()) {
                None => r is None && final(self).st() == old(self).st(),
                Some((lm, st2)) => {
                    &&& r matches Some(lx) && lx@ == lm
                    &&& final(self).st() == st2
                },
            },
    {
        let ghost text = self.text@;
        let ghost st0 = self.st();
        if self.pos >= self.len {
            return None;
        }
        let ghost expected = scan_run(text, st0, Seq::<char>::empty(), false, None);
        let mut collected: Vec<char> = Vec::new();
        let mut lit_run: bool = false;
        let mut start: Option<u64> = None;
        loop
            invariant_except_break
                self.wf(),
                self.text@ == text,
                text == old(self).input(),
                st0 == old(self).st(),
                0 <= st0.pos < text.len(),
                expected == scan_run(text, st0, Seq::<char>::empty(), false, None),
                scan_run(text, self.st(), collected@, lit_run, line_opt_view(start)) == expected,
                collected@.len() > 0 || lit_run ==> start is Some,
            ensures
                self.wf(),
                self.text@ == text,
                text == old(self).input(),
                st0 == old(self).st(),
                0 <= st0.pos < text.len(),
                expected == scan_run(text, st0, Seq::<char>::empty(), false, None),
                expected == (
                    flush_token(collected@, lit_run),
                    stamp_of(line_opt_view(start), self.st().line),
                    self.st(),
                ),
            decreases self.len - self.pos,
        {
            if self.pos >= self.len {
                break;
            }
            let c = self.text.get_char(self.pos);
            let char_line = self.line;
            let ghost st_head = self.st();
            if c == '\n' {
                self.line = self.line + 1;
            }
            if self.literal {
                if c == '"' {
                    self.pos = self.pos + 1;
                    self.literal = false;
                    proof {
                        assert(scan_run(text, st_head, collected@, lit_run, line_opt_view(start))
                            == (
                            flush_token(collected@, lit_run),
                            stamp_of(line_opt_view(start), st_head.line),
                            self.st(),
                        ));
                    }
                    break;
                } else {
                    self.pos = self.pos + 1;
                    if start.is_none() {
                        start = Some(char_line);
                    }
                    collected.push(c);
                }
            } else if self.content {
                if c == '<' {
                    self.content = false;
                    if collected.len() > 0 {
                        proof {
                            assert(scan_run(
                                text,
                                st_head,
                                collected@,
                                lit_run,
                                line_opt_view(start),
                            ) == (
                                flush_token(collected@, lit_run),
                                stamp_of(line_opt_view(start), st_head.line),
                                self.st(),
                            ));
                        }
                        break;
                    } else {
                        self.pos = self.pos + 1;
                        proof {
                            assert(expected == (
                                TokenModel::BracketLeft,
                                self.line as int,
                                self.st(),
                            ));
                        }
                        return Some(Lexeme { line: self.line, kind: LexemeType::BracketLeft });
                    }
                } else {
                    self.pos = self.pos + 1;
                    if start.is_none() {
                        start = Some(char_line);
                    }
                    collected.push(c);
                }
            } else if c == '<' {
                if collected.len() == 0 {
                    self.pos = self.pos + 1;
                    proof {
                        assert(expected == (TokenModel::BracketLeft, self.line as int, self.st()));
                    }
                    return Some(Lexeme { line: self.line, kind: LexemeType::BracketLeft });
                } else {
                    break;
                }
            } else if c == '>' {
                if collected.len() == 0 {
                    self.pos = self.pos + 1;
                    self.content = true;
                    proof {
                        assert(expected == (TokenModel::BracketRight, self.line as int, self.st()));
                    }
                    return Some(Lexeme { line: self.line, kind: LexemeType::BracketRight });
                } else {
                    break;
                }
            } else if c == '/' {
                if collected.len() == 0 {
                    self.pos = self.pos + 1;
                    proof {
                        assert(expected == (TokenModel::EndSlash, self.line as int, self.st()));
                    }
                    return Some(Lexeme { line: self.line, kind: LexemeType::EndSlash });
                } else {
                    break;
                }
            } else if c == '=' {
                if collected.len() == 0 {
                    self.pos = self.pos + 1;
                    proof {
                        assert(expected == (TokenModel::Equals, self.line as int, self.st()));
                    }
                    return Some(Lexeme { line: self.line, kind: LexemeType::Equals });
                } else {
                    break;
                }
            } else if c == '"' {
                if collected.len() == 0 {
                    lit_run = true;
                } else {
                    collected.push(c);
                }
                if start.is_none() {
                    start = Some(char_line);
                }
                self.pos = self.pos + 1;
                self.literal = true;
            } else if is_space(c) {
                if collected.len() == 0 {
                    self.pos = self.pos + 1;
                } else {
                    self.pos = self.pos + 1;
                    proof {
                        assert(scan_run(text, st_head, collected@, lit_run, line_opt_view(start))
                            == (
                            flush_token(collected@, lit_run),
                            stamp_of(line_opt_view(start), st_head.line),
                            self.st(),
                        ));
                    }
                    break;
                }
            } else {
                self.pos = self.pos + 1;
                if start.is_none() {
                    start = Some(char_line);
                }
                collected.push(c);
            }
        }
        let line_stamp = match start {
            Some(l) => l,
            None => self.line,
        };
        let kind = if lit_run {
            LexemeType::Literal(chars_to_string(&collected))
        } else {
            LexemeType::Identifier(chars_to_string(&collected))
        };
        Some(Lexeme { line: line_stamp, kind })
    }
}

} // verus!

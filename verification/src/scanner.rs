//! The scanning engine: a single-pass, byte-by-byte tokenizer with
//! maximal-munch disambiguation and accumulating, non-fail-fast diagnostics.
//!
//! The behaviour of a whole scan is pinned down by the spec function
//! [`spec_scan_from`]: from a cursor position and a line counter it gives the
//! exact sequence of tokens, the exact sequence of diagnostics, and the line
//! counter left when the input is exhausted. The executable [`Scanner`] is
//! proved to produce exactly these sequences.

use vstd::prelude::*;

use crate::token::{SpecToken, SpecTokenType, Token, TokenType};

verus! {

// The byte values the lexical grammar dispatches on.
pub const B_LPAREN: u8 = 40;
pub const B_RPAREN: u8 = 41;
pub const B_LBRACE: u8 = 123;
pub const B_RBRACE: u8 = 125;
pub const B_COMMA: u8 = 44;
pub const B_DOT: u8 = 46;
pub const B_MINUS: u8 = 45;
pub const B_PLUS: u8 = 43;
pub const B_SEMICOLON: u8 = 59;
pub const B_STAR: u8 = 42;
pub const B_BANG: u8 = 33;
pub const B_EQUAL: u8 = 61;
pub const B_LESS: u8 = 60;
pub const B_GREATER: u8 = 62;
pub const B_SLASH: u8 = 47;
pub const B_SPACE: u8 = 32;
pub const B_CR: u8 = 13;
pub const B_TAB: u8 = 9;
pub const B_NEWLINE: u8 = 10;
pub const B_QUOTE: u8 = 34;
pub const B_UNDERSCORE: u8 = 95;
pub const B_ZERO: u8 = 48;
pub const B_NINE: u8 = 57;
pub const B_LOWER_A: u8 = 97;
pub const B_LOWER_Z: u8 = 122;
pub const B_UPPER_A: u8 = 65;
pub const B_UPPER_Z: u8 = 90;

/// The closed set of scanner-detectable error kinds.
#[derive(Debug)]
pub enum ScannerErrorType {
    /// A byte that begins no lexical category (payload: the offending byte).
    UnexpectedCharacter(u8),
    /// A string literal still open when the input ended.
    UnterminatedString,
}

/// One line-stamped diagnostic.
#[derive(Debug)]
pub struct ScannerError {
    pub error: ScannerErrorType,
    pub line: usize,
}

/// The mathematical model of a `ScannerError`.
pub ghost struct SpecError {
    pub error: ScannerErrorType,
    pub line: int,
}

impl View for ScannerError {
    type V = SpecError;

    open spec fn view(&self) -> SpecError {
        SpecError { error: self.error, line: self.line as int }
    }
}

/// True of the bytes that form a decimal digit (`0` through `9`).
pub open spec fn is_digit(c: u8) -> bool {
    B_ZERO <= c && c <= B_NINE
}

/// True of the bytes that may begin an identifier: ASCII letters and `_`.
pub open spec fn is_alpha(c: u8) -> bool {
    (B_LOWER_A <= c && c <= B_LOWER_Z) || (B_UPPER_A <= c && c <= B_UPPER_Z) || c == B_UNDERSCORE
}

/// True of the bytes that may continue an identifier.
pub open spec fn is_alnum(c: u8) -> bool {
    is_alpha(c) || is_digit(c)
}

/// The end of the run of bytes satisfying `keep` that begins at `i`: the
/// first index at or after `i` whose byte fails `keep`, or the input length.
pub open spec fn run_end(s: Seq<u8>, i: int, keep: spec_fn(u8) -> bool) -> int
    decreases s.len() - i,
{
    if i < s.len() && keep(s[i]) {
        run_end(s, i + 1, keep)
    } else {
        i
    }
}

/// The predicate that keeps a decimal-digit run going.
pub open spec fn digit_pred() -> spec_fn(u8) -> bool {
    |c: u8| is_digit(c)
}

/// The predicate that keeps an identifier run going.
pub open spec fn alnum_pred() -> spec_fn(u8) -> bool {
    |c: u8| is_alnum(c)
}

/// The predicate that keeps a string-literal body going.
pub open spec fn not_quote_pred() -> spec_fn(u8) -> bool {
    |c: u8| c != B_QUOTE
}

/// The predicate that keeps a line comment going.
pub open spec fn not_newline_pred() -> spec_fn(u8) -> bool {
    |c: u8| c != B_NEWLINE
}

/// How many newline bytes `s` holds at the indices in `[i, j)`.
pub open spec fn newlines_in(s: Seq<u8>, i: int, j: int) -> int
    decreases j - i,
{
    if i < j {
        (if s[i] == B_NEWLINE {
            1int
        } else {
            0int
        }) + newlines_in(s, i + 1, j)
    } else {
        0
    }
}

/// The keyword table: the category of an identifier-shaped lexeme.
pub open spec fn keyword_type(text: Seq<u8>) -> SpecTokenType {
    if text == seq![97u8, 110u8, 100u8] {  // and
        SpecTokenType::And
    } else if text == seq![99u8, 108u8, 97u8, 115u8, 115u8] {  // class
        SpecTokenType::Class
    } else if text == seq![101u8, 108u8, 115u8, 101u8] {  // else
        SpecTokenType::Else
    } else if text == seq![102u8, 97u8, 108u8, 115u8, 101u8] {  // false
        SpecTokenType::False
    } else if text == seq![102u8, 111u8, 114u8] {  // for
        SpecTokenType::For
    } else if text == seq![102u8, 117u8, 110u8] {  // fun
        SpecTokenType::Fun
    } else if text == seq![105u8, 102u8] {  // if
        SpecTokenType::If
    } else if text == seq![110u8, 105u8, 108u8] {  // nil
        SpecTokenType::Nil
    } else if text == seq![111u8, 114u8] {  // or
        SpecTokenType::Or
    } else if text == seq![112u8, 114u8, 105u8, 110u8, 116u8] {  // print
        SpecTokenType::Print
    } else if text == seq![114u8, 101u8, 116u8, 117u8, 114u8, 110u8] {  // return
        SpecTokenType::Return
    } else if text == seq![115u8, 117u8, 112u8, 101u8, 114u8] {  // super
        SpecTokenType::Super
    } else if text == seq![116u8, 104u8, 105u8, 115u8] {  // this
        SpecTokenType::This
    } else if text == seq![116u8, 114u8, 117u8, 101u8] {  // true
        SpecTokenType::True
    } else if text == seq![118u8, 97u8, 114u8] {  // var
        SpecTokenType::Var
    } else if text == seq![119u8, 104u8, 105u8, 108u8, 101u8] {  // while
        SpecTokenType::While
    } else {
        SpecTokenType::Identifier(text)
    }
}

/// What one dispatch step of the scanner does: where the cursor and the line
/// counter move, and which token or diagnostic (if either) the step emits.
pub ghost struct ScanStep {
    pub next: int,
    pub line: int,
    pub token: Option<SpecToken>,
    pub error: Option<SpecError>,
}

/// A step that emits the token of a fixed `n`-byte punctuation lexeme.
pub open spec fn punct_step(s: Seq<u8>, i: int, n: int, line: int, type_: SpecTokenType) -> ScanStep {
    ScanStep {
        next: i + n,
        line,
        token: Some(SpecToken { type_, lexeme: s.subrange(i, i + n), line }),
        error: None,
    }
}

/// A step that consumes `n` bytes and emits nothing.
pub open spec fn silent_step(i: int, n: int, line: int) -> ScanStep {
    ScanStep { next: i + n, line, token: None, error: None }
}

/// The step taken from an opening quote at `i`: the body runs to the first
/// closing quote or to the end of the input, newlines inside it count toward
/// the line number, and the token or diagnostic is stamped with the line
/// reached at its end.
pub open spec fn string_step(s: Seq<u8>, i: int, line: int) -> ScanStep {
    let close = run_end(s, i + 1, not_quote_pred());
    let end_line = line + newlines_in(s, i + 1, close);
    if close < s.len() {
        ScanStep {
            next: close + 1,
            line: end_line,
            token: Some(
                SpecToken {
                    type_: SpecTokenType::StringLit(s.subrange(i + 1, close)),
                    lexeme: s.subrange(i, close + 1),
                    line: end_line,
                },
            ),
            error: None,
        }
    } else {
        ScanStep {
            next: s.len() as int,
            line: end_line,
            token: None,
            error: Some(
                (SpecError { error: ScannerErrorType::UnterminatedString, line: end_line }),
            ),
        }
    }
}

/// The step taken from a digit at `i`: the integer part is the digit run, and
/// a fractional part follows only when a `.` comes with a digit directly
/// after it — a trailing `.` is left for the next lexeme.
pub open spec fn number_step(s: Seq<u8>, i: int, line: int) -> ScanStep {
    let int_end = run_end(s, i + 1, digit_pred());
    let end = if int_end + 1 < s.len() && s[int_end] == B_DOT && is_digit(s[int_end + 1]) {
        run_end(s, int_end + 1, digit_pred())
    } else {
        int_end
    };
    ScanStep {
        next: end,
        line,
        token: Some(
            SpecToken {
                type_: SpecTokenType::Number(s.subrange(i, end)),
                lexeme: s.subrange(i, end),
                line,
            },
        ),
        error: None,
    }
}

/// The step taken from a letter or `_` at `i`: the lexeme is the run of
/// letters, digits and `_`, and the whole lexeme decides keyword vs.
/// identifier.
pub open spec fn identifier_step(s: Seq<u8>, i: int, line: int) -> ScanStep {
    let end = run_end(s, i + 1, alnum_pred());
    ScanStep {
        next: end,
        line,
        token: Some(
            SpecToken {
                type_: keyword_type(s.subrange(i, end)),
                lexeme: s.subrange(i, end),
                line,
            },
        ),
        error: None,
    }
}

/// One dispatch step of the scanner on the byte at `i`.
pub open spec fn spec_step(s: Seq<u8>, i: int, line: int) -> ScanStep
    recommends
        0 <= i < s.len(),
{
    let c = s[i];
    if c == B_LPAREN {
        punct_step(s, i, 1, line, SpecTokenType::LeftParen)
    } else if c == B_RPAREN {
        punct_step(s, i, 1, line, SpecTokenType::RightParen)
    } else if c == B_LBRACE {
        punct_step(s, i, 1, line, SpecTokenType::LeftBrace)
    } else if c == B_RBRACE {
        punct_step(s, i, 1, line, SpecTokenType::RightBrace)
    } else if c == B_COMMA {
        punct_step(s, i, 1, line, SpecTokenType::Comma)
    } else if c == B_DOT {
        punct_step(s, i, 1, line, SpecTokenType::Dot)
    } else if c == B_MINUS {
        punct_step(s, i, 1, line, SpecTokenType::Minus)
    } else if c == B_PLUS {
        punct_step(s, i, 1, line, SpecTokenType::Plus)
    } else if c == B_SEMICOLON {
        punct_step(s, i, 1, line, SpecTokenType::Semicolon)
    } else if c == B_STAR {
        punct_step(s, i, 1, line, SpecTokenType::Star)
    } else if c == B_BANG {
        if i + 1 < s.len() && s[i + 1] == B_EQUAL {
            punct_step(s, i, 2, line, SpecTokenType::BangEqual)
        } else {
            punct_step(s, i, 1, line, SpecTokenType::Bang)
        }
    } else if c == B_EQUAL {
        if i + 1 < s.len() && s[i + 1] == B_EQUAL {
            punct_step(s, i, 2, line, SpecTokenType::EqualEqual)
        } else {
            punct_step(s, i, 1, line, SpecTokenType::Equal)
        }
    } else if c == B_LESS {
        if i + 1 < s.len() && s[i + 1] == B_EQUAL {
            punct_step(s, i, 2, line, SpecTokenType::LessEqual)
        } else {
            punct_step(s, i, 1, line, SpecTokenType::Less)
        }
    } else if c == B_GREATER {
        if i + 1 < s.len() && s[i + 1] == B_EQUAL {
            punct_step(s, i, 2, line, SpecTokenType::GreaterEqual)
        } else {
            punct_step(s, i, 1, line, SpecTokenType::Greater)
        }
    } else if c == B_SLASH {
        if i + 1 < s.len() && s[i + 1] == B_SLASH {
            // a line comment: it ends before the newline, which the next
            // step consumes and counts
            ScanStep {
                next: run_end(s, i + 2, not_newline_pred()),
                line,
                token: None,
                error: None,
            }
        } else {
            punct_step(s, i, 1, line, SpecTokenType::Slash)
        }
    } else if c == B_SPACE || c == B_CR || c == B_TAB {
        silent_step(i, 1, line)
    } else if c == B_NEWLINE {
        ScanStep { next: i + 1, line: line + 1, token: None, error: None }
    } else if c == B_QUOTE {
        string_step(s, i, line)
    } else if is_digit(c) {
        number_step(s, i, line)
    } else if is_alpha(c) {
        identifier_step(s, i, line)
    } else {
        ScanStep {
            next: i + 1,
            line,
            token: None,
            error: Some((SpecError { error: ScannerErrorType::UnexpectedCharacter(c), line })),
        }
    }
}

/// What a whole scan from a cursor position produces: the ordered tokens, the
/// ordered diagnostics, and the line counter left at the end of the input.
pub ghost struct ScanResult {
    pub tokens: Seq<SpecToken>,
    pub errors: Seq<SpecError>,
    pub line: int,
}

/// The token a step emits, as a sequence of length 0 or 1.
pub open spec fn step_tokens(st: ScanStep) -> Seq<SpecToken> {
    match st.token {
        Some(t) => seq![t],
        None => Seq::empty(),
    }
}

/// The diagnostic a step emits, as a sequence of length 0 or 1.
pub open spec fn step_errors(st: ScanStep) -> Seq<SpecError> {
    match st.error {
        Some(e) => seq![e],
        None => Seq::empty(),
    }
}

/// The complete scan of `s` from cursor `i` with the line counter at `line`.
/// This is the reference meaning of the scanning engine.
pub open spec fn spec_scan_from(s: Seq<u8>, i: int, line: int) -> ScanResult
    decreases s.len() - i,
    via spec_scan_from_decreases
{
    if i < s.len() {
        let st = spec_step(s, i, line);
        let rest = spec_scan_from(s, st.next, st.line);
        ScanResult {
            tokens: step_tokens(st) + rest.tokens,
            errors: step_errors(st) + rest.errors,
            line: rest.line,
        }
    } else {
        ScanResult { tokens: Seq::empty(), errors: Seq::empty(), line }
    }
}

#[via_fn]
proof fn spec_scan_from_decreases(s: Seq<u8>, i: int, line: int) {
    if i < s.len() {
        lemma_step_bounds(s, i, line);
    }
}

/// The complete scan of a source text: cursor at its start, line counter 1.
pub open spec fn spec_scan(s: Seq<u8>) -> ScanResult {
    spec_scan_from(s, 0, 1)
}

/// A run never ends before its start, never after the input, holds only
/// bytes that `keep` accepts, and stops only at the input's end or at a byte
/// that `keep` rejects.
pub proof fn lemma_run_end(s: Seq<u8>, i: int, keep: spec_fn(u8) -> bool)
    requires
        i <= s.len(),
    ensures
        i <= run_end(s, i, keep) <= s.len(),
        forall|k: int| i <= k < run_end(s, i, keep) ==> keep(s[k]),
        run_end(s, i, keep) < s.len() ==> !keep(s[run_end(s, i, keep)]),
    decreases s.len() - i,
{
    if i < s.len() && keep(s[i]) {
        lemma_run_end(s, i + 1, keep);
    }
}

/// The run that begins at `i` ends exactly at `j` when every byte before `j`
/// is kept and the byte at `j` (if any) is not.
pub proof fn lemma_run_end_is(s: Seq<u8>, i: int, j: int, keep: spec_fn(u8) -> bool)
    requires
        i <= j <= s.len(),
        forall|k: int| i <= k < j ==> keep(s[k]),
        j < s.len() ==> !keep(s[j]),
    ensures
        run_end(s, i, keep) == j,
    decreases j - i,
{
    if i < j {
        lemma_run_end_is(s, i + 1, j, keep);
    }
}

/// A newline count is never negative and never larger than the range.
pub proof fn lemma_newlines_in_bounds(s: Seq<u8>, i: int, j: int)
    ensures
        0 <= newlines_in(s, i, j),
        i <= j ==> newlines_in(s, i, j) <= j - i,
    decreases j - i,
{
    if i < j {
        lemma_newlines_in_bounds(s, i + 1, j);
    }
}

/// Extending a range one byte to the right adds that byte's newline count.
pub proof fn lemma_newlines_in_snoc(s: Seq<u8>, i: int, j: int)
    requires
        i <= j,
    ensures
        newlines_in(s, i, j + 1) == newlines_in(s, i, j) + (if s[j] == B_NEWLINE {
            1int
        } else {
            0int
        }),
    decreases j - i,
{
    if i < j {
        lemma_newlines_in_snoc(s, i + 1, j);
    } else {
        assert(newlines_in(s, j + 1, j + 1) == 0);
    }
}

/// A newline count splits at any point of its range.
pub proof fn lemma_newlines_in_concat(s: Seq<u8>, a: int, b: int, c: int)
    requires
        a <= b <= c,
    ensures
        newlines_in(s, a, c) == newlines_in(s, a, b) + newlines_in(s, b, c),
    decreases b - a,
{
    if a < b {
        lemma_newlines_in_concat(s, a + 1, b, c);
    }
}

/// A range without newline bytes counts no newlines.
pub proof fn lemma_newlines_in_zero(s: Seq<u8>, a: int, b: int)
    requires
        forall|k: int| a <= k < b ==> s[k] != B_NEWLINE,
    ensures
        newlines_in(s, a, b) == 0,
    decreases b - a,
{
    if a < b {
        lemma_newlines_in_zero(s, a + 1, b);
    }
}

/// Each step moves the line counter by exactly the newlines it consumes.
proof fn lemma_step_newlines(s: Seq<u8>, i: int, line: int)
    requires
        0 <= i < s.len(),
    ensures
        spec_step(s, i, line).line == line + newlines_in(s, i, spec_step(s, i, line).next),
{
    let st = spec_step(s, i, line);
    let c = s[i];
    assert(newlines_in(s, i, i) == 0);
    lemma_newlines_in_snoc(s, i, i);
    if c == B_SLASH && i + 1 < s.len() && s[i + 1] == B_SLASH {
        lemma_newlines_in_snoc(s, i, i + 1);
        lemma_run_end(s, i + 2, not_newline_pred());
        lemma_newlines_in_zero(s, i + 2, st.next);
        lemma_newlines_in_concat(s, i, i + 2, st.next);
    } else if c == B_QUOTE {
        let close = run_end(s, i + 1, not_quote_pred());
        lemma_run_end(s, i + 1, not_quote_pred());
        if close < s.len() {
            lemma_newlines_in_snoc(s, i + 1, close);
            lemma_newlines_in_concat(s, i, i + 1, close + 1);
        } else {
            lemma_newlines_in_concat(s, i, i + 1, s.len() as int);
        }
    } else if is_digit(c) {
        let int_end = run_end(s, i + 1, digit_pred());
        lemma_run_end(s, i + 1, digit_pred());
        if int_end + 1 < s.len() && s[int_end] == B_DOT && is_digit(s[int_end + 1]) {
            lemma_run_end(s, int_end + 1, digit_pred());
        }
        assert forall|k: int| i + 1 <= k < st.next implies s[k] != B_NEWLINE by {
            assert(is_digit(s[k]) || s[k] == B_DOT);
        }
        lemma_newlines_in_zero(s, i + 1, st.next);
        lemma_newlines_in_concat(s, i, i + 1, st.next);
    } else if is_alpha(c) && c != B_QUOTE {
        lemma_run_end(s, i + 1, alnum_pred());
        assert forall|k: int| i + 1 <= k < st.next implies s[k] != B_NEWLINE by {
            assert(is_alnum(s[k]));
        }
        lemma_newlines_in_zero(s, i + 1, st.next);
        lemma_newlines_in_concat(s, i, i + 1, st.next);
    } else if st.next == i + 2 {
        lemma_newlines_in_snoc(s, i, i + 1);
    }
}

proof fn lemma_scan_line_from(s: Seq<u8>, i: int, line: int)
    requires
        0 <= i <= s.len(),
    ensures
        spec_scan_from(s, i, line).line == line + newlines_in(s, i, s.len() as int),
    decreases s.len() - i,
{
    if i < s.len() {
        let st = spec_step(s, i, line);
        lemma_step_bounds(s, i, line);
        lemma_step_newlines(s, i, line);
        lemma_scan_line_from(s, st.next, st.line);
        lemma_newlines_in_concat(s, i, st.next, s.len() as int);
    }
}

/// Line tracking: whatever the input holds, the line counter a scan leaves —
/// the line the end-of-input token is stamped with on success — is 1 plus
/// the number of newline bytes in the input.
pub proof fn lemma_final_line(s: Seq<u8>)
    ensures
        spec_scan(s).line == 1 + newlines_in(s, 0, s.len() as int),
{
    lemma_scan_line_from(s, 0, 1);
}

/// True of the bytes the scanner consumes without emitting anything:
/// space, horizontal tab, carriage return, newline.
pub open spec fn is_blank(c: u8) -> bool {
    c == B_SPACE || c == B_TAB || c == B_CR || c == B_NEWLINE
}

proof fn lemma_blank_scan_from(s: Seq<u8>, i: int, line: int)
    requires
        0 <= i <= s.len(),
        forall|k: int| i <= k < s.len() ==> is_blank(s[k]),
    ensures
        spec_scan_from(s, i, line).tokens == Seq::<SpecToken>::empty(),
        spec_scan_from(s, i, line).errors == Seq::<SpecError>::empty(),
        spec_scan_from(s, i, line).line == line + newlines_in(s, i, s.len() as int),
    decreases s.len() - i,
{
    if i < s.len() {
        let st = spec_step(s, i, line);
        assert(is_blank(s[i]));
        lemma_blank_scan_from(s, i + 1, st.line);
        assert(step_tokens(st) + Seq::<SpecToken>::empty() =~= Seq::<SpecToken>::empty());
        assert(step_errors(st) + Seq::<SpecError>::empty() =~= Seq::<SpecError>::empty());
    }
}

/// An input of spaces, tabs, carriage returns and newlines alone scans with
/// no token and no diagnostic, and leaves the line counter at 1 plus the
/// number of newlines in the input — so the scan succeeds and yields exactly
/// the end-of-input token, stamped with that line.
pub proof fn lemma_whitespace_scan(s: Seq<u8>)
    requires
        forall|k: int| 0 <= k < s.len() ==> is_blank(s[k]),
    ensures
        spec_scan(s).tokens == Seq::<SpecToken>::empty(),
        spec_scan(s).errors == Seq::<SpecError>::empty(),
        spec_scan(s).line == 1 + newlines_in(s, 0, s.len() as int),
{
    lemma_blank_scan_from(s, 0, 1);
}

/// The fixed spelling of each punctuation and operator category, and nothing
/// for the categories whose lexemes vary.
pub open spec fn operator_spelling(t: SpecTokenType) -> Option<Seq<u8>> {
    match t {
        SpecTokenType::LeftParen => Some(seq![B_LPAREN]),
        SpecTokenType::RightParen => Some(seq![B_RPAREN]),
        SpecTokenType::LeftBrace => Some(seq![B_LBRACE]),
        SpecTokenType::RightBrace => Some(seq![B_RBRACE]),
        SpecTokenType::Comma => Some(seq![B_COMMA]),
        SpecTokenType::Dot => Some(seq![B_DOT]),
        SpecTokenType::Minus => Some(seq![B_MINUS]),
        SpecTokenType::Plus => Some(seq![B_PLUS]),
        SpecTokenType::Semicolon => Some(seq![B_SEMICOLON]),
        SpecTokenType::Slash => Some(seq![B_SLASH]),
        SpecTokenType::Star => Some(seq![B_STAR]),
        SpecTokenType::Bang => Some(seq![B_BANG]),
        SpecTokenType::BangEqual => Some(seq![B_BANG, B_EQUAL]),
        SpecTokenType::Equal => Some(seq![B_EQUAL]),
        SpecTokenType::EqualEqual => Some(seq![B_EQUAL, B_EQUAL]),
        SpecTokenType::Greater => Some(seq![B_GREATER]),
        SpecTokenType::GreaterEqual => Some(seq![B_GREATER, B_EQUAL]),
        SpecTokenType::Less => Some(seq![B_LESS]),
        SpecTokenType::LessEqual => Some(seq![B_LESS, B_EQUAL]),
        _ => None,
    }
}

/// A token round-trips to its source text: when its category has a fixed
/// spelling, its lexeme is exactly that spelling.
pub open spec fn spelling_matches(t: SpecToken) -> bool {
    match operator_spelling(t.type_) {
        Some(sp) => t.lexeme == sp,
        None => true,
    }
}

/// What holds of the one token a step can emit: it round-trips to its
/// spelling, and it is never the end-of-input sentinel.
proof fn lemma_step_token_props(s: Seq<u8>, i: int, line: int)
    requires
        0 <= i < s.len(),
    ensures
        (match spec_step(s, i, line).token {
            Some(t) => spelling_matches(t) && t.type_ != SpecTokenType::Eof,
            None => true,
        }),
{
    let st = spec_step(s, i, line);
    match st.token {
        Some(t) => {
            if st.next == i + 1 {
                assert(s.subrange(i, i + 1) =~= seq![s[i]]);
            }
            if st.next == i + 2 {
                assert(s.subrange(i, i + 2) =~= seq![s[i], s[i + 1]]);
            }
        },
        None => {},
    }
}

proof fn lemma_operator_lexeme_from(s: Seq<u8>, i: int, line: int)
    requires
        0 <= i,
    ensures
        forall|k: int|
            0 <= k < spec_scan_from(s, i, line).tokens.len() ==> spelling_matches(
                #[trigger] spec_scan_from(s, i, line).tokens[k],
            ),
    decreases s.len() - i,
{
    if i < s.len() {
        let st = spec_step(s, i, line);
        let rest = spec_scan_from(s, st.next, st.line);
        let toks = spec_scan_from(s, i, line).tokens;
        lemma_step_bounds(s, i, line);
        lemma_step_token_props(s, i, line);
        lemma_operator_lexeme_from(s, st.next, st.line);
        assert forall|k: int| 0 <= k < toks.len() implies spelling_matches(#[trigger] toks[k]) by {
            if k < step_tokens(st).len() {
                assert(toks[k] == step_tokens(st)[k]);
            } else {
                assert(toks[k] == rest.tokens[k - step_tokens(st).len()]);
            }
        }
    }
}

/// Round-trip: every punctuation or operator token a scan produces has, as
/// its lexeme, exactly the spelling of its operator — the very bytes of the
/// source text that produced it.
pub proof fn lemma_operator_round_trip(s: Seq<u8>)
    ensures
        forall|k: int|
            0 <= k < spec_scan(s).tokens.len() ==> spelling_matches(
                #[trigger] spec_scan(s).tokens[k],
            ),
{
    lemma_operator_lexeme_from(s, 0, 1);
}

proof fn lemma_no_eof_from(s: Seq<u8>, i: int, line: int)
    requires
        0 <= i,
    ensures
        forall|k: int|
            0 <= k < spec_scan_from(s, i, line).tokens.len() ==> (#[trigger] spec_scan_from(
                s,
                i,
                line,
            ).tokens[k]).type_ != SpecTokenType::Eof,
    decreases s.len() - i,
{
    if i < s.len() {
        let st = spec_step(s, i, line);
        let rest = spec_scan_from(s, st.next, st.line);
        let toks = spec_scan_from(s, i, line).tokens;
        lemma_step_bounds(s, i, line);
        lemma_step_token_props(s, i, line);
        lemma_no_eof_from(s, st.next, st.line);
        assert forall|k: int| 0 <= k < toks.len() implies (#[trigger] toks[k]).type_
            != SpecTokenType::Eof by {
            if k < step_tokens(st).len() {
                assert(toks[k] == step_tokens(st)[k]);
            } else {
                assert(toks[k] == rest.tokens[k - step_tokens(st).len()]);
            }
        }
    }
}

/// The end-of-input sentinel appears exactly once, only as the last element:
/// the scan itself never emits it, so the one closing token that
/// [`Scanner::scan_tokens`] appends is the only one.
pub proof fn lemma_eof_only_last(s: Seq<u8>)
    ensures
        forall|k: int|
            0 <= k < spec_scan(s).tokens.len() ==> (#[trigger] spec_scan(s).tokens[k]).type_
                != SpecTokenType::Eof,
{
    lemma_no_eof_from(s, 0, 1);
}

/// Every step moves the cursor strictly forward and never past the end, and
/// moves the line counter forward by at most the bytes it consumes.
pub proof fn lemma_step_bounds(s: Seq<u8>, i: int, line: int)
    requires
        i < s.len(),
    ensures
        i < spec_step(s, i, line).next <= s.len(),
        line <= spec_step(s, i, line).line <= line + (spec_step(s, i, line).next - i),
{
    let c = s[i];
    if c == B_SLASH && i + 1 < s.len() && s[i + 1] == B_SLASH {
        lemma_run_end(s, i + 2, not_newline_pred());
    } else if c == B_QUOTE {
        let close = run_end(s, i + 1, not_quote_pred());
        lemma_run_end(s, i + 1, not_quote_pred());
        lemma_newlines_in_bounds(s, i + 1, close);
    } else if is_digit(c) {
        let int_end = run_end(s, i + 1, digit_pred());
        lemma_run_end(s, i + 1, digit_pred());
        if int_end + 1 < s.len() && s[int_end] == B_DOT && is_digit(s[int_end + 1]) {
            lemma_run_end(s, int_end + 1, digit_pred());
        }
    } else if is_alpha(c) && c != B_QUOTE {
        lemma_run_end(s, i + 1, alnum_pred());
    }
}

pub const B_SQUOTE: u8 = 39;

/// The decimal digits of `n`, most significant first.
pub open spec fn spec_decimal(n: int) -> Seq<u8>
    recommends
        n >= 0,
    decreases n,
{
    if n < 10 {
        seq![((B_ZERO as int + n) as u8)]
    } else {
        spec_decimal(n / 10) + seq![((B_ZERO as int + n % 10) as u8)]
    }
}

/// The UTF-8 encoding of the character a byte stands for: itself when it is
/// ASCII, two bytes otherwise.
pub open spec fn utf8_of_byte(c: u8) -> Seq<u8> {
    if c < 128 {
        seq![c]
    } else {
        seq![((192 + c as int / 64) as u8), ((128 + c as int % 64) as u8)]
    }
}

/// The kind-specific message of a diagnostic:
/// `unexpected character '<char>'` or `unterminated string`.
pub open spec fn spec_message(e: ScannerErrorType) -> Seq<u8> {
    match e {
        ScannerErrorType::UnexpectedCharacter(c) =>
        // unexpected character '
        seq![
            117u8, 110u8, 101u8, 120u8, 112u8, 101u8, 99u8, 116u8, 101u8, 100u8, 32u8, 99u8,
            104u8, 97u8, 114u8, 97u8, 99u8, 116u8, 101u8, 114u8, 32u8, 39u8,
        ] + utf8_of_byte(c) + seq![B_SQUOTE],
        ScannerErrorType::UnterminatedString =>
        // unterminated string
        seq![
            117u8, 110u8, 116u8, 101u8, 114u8, 109u8, 105u8, 110u8, 97u8, 116u8, 101u8, 100u8,
            32u8, 115u8, 116u8, 114u8, 105u8, 110u8, 103u8,
        ],
    }
}

/// The full rendering of a diagnostic: `[line <line>] Error: <message>`.
pub open spec fn spec_render(e: SpecError) -> Seq<u8> {
    // [line
    seq![91u8, 108u8, 105u8, 110u8, 101u8, 32u8] + spec_decimal(e.line)
    // ] Error:
    + seq![93u8, 32u8, 69u8, 114u8, 114u8, 111u8, 114u8, 58u8, 32u8] + spec_message(e.error)
}

/// The decimal digits of `n`, most significant first.
fn format_decimal(n: usize) -> (r: Vec<u8>)
    ensures
        r@ == spec_decimal(n as int),
    decreases n,
{
    if n < 10 {
        let mut r: Vec<u8> = Vec::new();
        r.push(B_ZERO + (n as u8));
        proof {
            assert(r@ =~= spec_decimal(n as int));
        }
        r
    } else {
        let mut r = format_decimal(n / 10);
        r.push(B_ZERO + ((n % 10) as u8));
        proof {
            assert(r@ =~= spec_decimal((n / 10) as int) + seq![
                ((B_ZERO as int + (n as int) % 10) as u8),
            ]);
        }
        r
    }
}

/// Appends the UTF-8 encoding of the character that `c` stands for.
fn push_utf8_of(r: &mut Vec<u8>, c: u8)
    ensures
        final(r)@ == old(r)@ + utf8_of_byte(c),
{
    if c < 128 {
        r.push(c);
        proof {
            assert(r@ =~= old(r)@ + utf8_of_byte(c));
        }
    } else {
        r.push(192 + c / 64);
        r.push(128 + c % 64);
        proof {
            assert(r@ =~= old(r)@ + utf8_of_byte(c));
        }
    }
}

impl ScannerErrorType {
    /// The kind-specific message, exactly as [`spec_message`] says.
    pub fn message(&self) -> (r: Vec<u8>)
        ensures
            r@ == spec_message(*self),
    {
        let mut r: Vec<u8> = Vec::new();
        match self {
            ScannerErrorType::UnexpectedCharacter(c) => {
                // unexpected character '
                r.push(117);
                r.push(110);
                r.push(101);
                r.push(120);
                r.push(112);
                r.push(101);
                r.push(99);
                r.push(116);
                r.push(101);
                r.push(100);
                r.push(32);
                r.push(99);
                r.push(104);
                r.push(97);
                r.push(114);
                r.push(97);
                r.push(99);
                r.push(116);
                r.push(101);
                r.push(114);
                r.push(32);
                r.push(39);
                push_utf8_of(&mut r, *c);
                r.push(B_SQUOTE);
                proof {
                    assert(r@ =~= spec_message(*self));
                }
            },
            ScannerErrorType::UnterminatedString => {
                // unterminated string
                r.push(117);
                r.push(110);
                r.push(116);
                r.push(101);
                r.push(114);
                r.push(109);
                r.push(105);
                r.push(110);
                r.push(97);
                r.push(116);
                r.push(101);
                r.push(100);
                r.push(32);
                r.push(115);
                r.push(116);
                r.push(114);
                r.push(105);
                r.push(110);
                r.push(103);
                proof {
                    assert(r@ =~= spec_message(*self));
                }
            },
        }
        r
    }
}

impl ScannerError {
    /// The textual form a driver presents: `[line <line>] Error: <message>`,
    /// exactly as [`spec_render`] says.
    pub fn render(&self) -> (r: Vec<u8>)
        ensures
            r@ == spec_render(self@),
    {
        let mut r: Vec<u8> = Vec::new();
        // [line
        r.push(91);
        r.push(108);
        r.push(105);
        r.push(110);
        r.push(101);
        r.push(32);
        let mut digits = format_decimal(self.line);
        r.append(&mut digits);
        // ] Error:
        r.push(93);
        r.push(32);
        r.push(69);
        r.push(114);
        r.push(114);
        r.push(111);
        r.push(114);
        r.push(58);
        r.push(32);
        let mut msg = self.error.message();
        r.append(&mut msg);
        proof {
            assert(r@ =~= spec_render(self@));
        }
        r
    }
}

/// The tokens of a token list, each abstracted to its model.
pub open spec fn view_tokens(ts: Seq<Token>) -> Seq<SpecToken> {
    ts.map_values(|t: Token| t@)
}

/// The diagnostics of a diagnostic list, each abstracted to its model.
pub open spec fn view_errors(es: Seq<ScannerError>) -> Seq<SpecError> {
    es.map_values(|e: ScannerError| e@)
}

/// Appending one element is the same as concatenating a singleton.
pub proof fn lemma_push_is_concat<A>(s: Seq<A>, x: A)
    ensures
        s.push(x) == s + seq![x],
{
    assert(s.push(x) =~= s + seq![x]);
}

/// Copies the bytes of `v` at the indices in `[a, b)` into a fresh vector.
fn copy_range(v: &Vec<u8>, a: usize, b: usize) -> (r: Vec<u8>)
    requires
        a <= b <= v@.len(),
    ensures
        r@ == v@.subrange(a as int, b as int),
{
    let mut r: Vec<u8> = Vec::new();
    let mut k: usize = a;
    while k < b
        invariant
            a <= k <= b <= v@.len(),
            r@ == v@.subrange(a as int, k as int),
        decreases b - k,
    {
        r.push(v[k]);
        proof {
            assert(v@.subrange(a as int, k + 1 as int) =~= v@.subrange(a as int, k as int).push(
                v@[k as int],
            ));
        }
        k = k + 1;
    }
    r
}

/// Whether `c` is a decimal digit.
fn is_digit_byte(c: u8) -> (b: bool)
    ensures
        b == is_digit(c),
{
    B_ZERO <= c && c <= B_NINE
}

/// Whether `c` is an ASCII letter or `_`.
fn is_alpha_byte(c: u8) -> (b: bool)
    ensures
        b == is_alpha(c),
{
    (B_LOWER_A <= c && c <= B_LOWER_Z) || (B_UPPER_A <= c && c <= B_UPPER_Z) || c == B_UNDERSCORE
}

/// Whether `c` may continue an identifier.
fn is_alnum_byte(c: u8) -> (b: bool)
    ensures
        b == is_alnum(c),
{
    is_alpha_byte(c) || is_digit_byte(c)
}

/// The category of an identifier-shaped lexeme: the matching keyword, or an
/// identifier carrying the text, exactly as [`keyword_type`] says.
fn keyword_or_identifier(text: Vec<u8>) -> (t: TokenType)
    ensures
        t@ == keyword_type(text@),
{
    let n = text.len();
    if n == 3 && text[0] == 97 && text[1] == 110 && text[2] == 100 {  // and
        proof {
            assert(text@ =~= seq![97u8, 110u8, 100u8]);
        }
        TokenType::And
    } else if n == 5 && text[0] == 99 && text[1] == 108 && text[2] == 97 && text[3] == 115
        && text[4] == 115 {  // class
        proof {
            assert(text@ =~= seq![99u8, 108u8, 97u8, 115u8, 115u8]);
        }
        TokenType::Class
    } else if n == 4 && text[0] == 101 && text[1] == 108 && text[2] == 115 && text[3] == 101 {  // else
        proof {
            assert(text@ =~= seq![101u8, 108u8, 115u8, 101u8]);
        }
        TokenType::Else
    } else if n == 5 && text[0] == 102 && text[1] == 97 && text[2] == 108 && text[3] == 115
        && text[4] == 101 {  // false
        proof {
            assert(text@ =~= seq![102u8, 97u8, 108u8, 115u8, 101u8]);
        }
        TokenType::False
    } else if n == 3 && text[0] == 102 && text[1] == 111 && text[2] == 114 {  // for
        proof {
            assert(text@ =~= seq![102u8, 111u8, 114u8]);
        }
        TokenType::For
    } else if n == 3 && text[0] == 102 && text[1] == 117 && text[2] == 110 {  // fun
        proof {
            assert(text@ =~= seq![102u8, 117u8, 110u8]);
        }
        TokenType::Fun
    } else if n == 2 && text[0] == 105 && text[1] == 102 {  // if
        proof {
            assert(text@ =~= seq![105u8, 102u8]);
        }
        TokenType::If
    } else if n == 3 && text[0] == 110 && text[1] == 105 && text[2] == 108 {  // nil
        proof {
            assert(text@ =~= seq![110u8, 105u8, 108u8]);
        }
        TokenType::Nil
    } else if n == 2 && text[0] == 111 && text[1] == 114 {  // or
        proof {
            assert(text@ =~= seq![111u8, 114u8]);
        }
        TokenType::Or
    } else if n == 5 && text[0] == 112 && text[1] == 114 && text[2] == 105 && text[3] == 110
        && text[4] == 116 {  // print
        proof {
            assert(text@ =~= seq![112u8, 114u8, 105u8, 110u8, 116u8]);
        }
        TokenType::Print
    } else if n == 6 && text[0] == 114 && text[1] == 101 && text[2] == 116 && text[3] == 117
        && text[4] == 114 && text[5] == 110 {  // return
        proof {
            assert(text@ =~= seq![114u8, 101u8, 116u8, 117u8, 114u8, 110u8]);
        }
        TokenType::Return
    } else if n == 5 && text[0] == 115 && text[1] == 117 && text[2] == 112 && text[3] == 101
        && text[4] == 114 {  // super
        proof {
            assert(text@ =~= seq![115u8, 117u8, 112u8, 101u8, 114u8]);
        }
        TokenType::Super
    } else if n == 4 && text[0] == 116 && text[1] == 104 && text[2] == 105 && text[3] == 115 {  // this
        proof {
            assert(text@ =~= seq![116u8, 104u8, 105u8, 115u8]);
        }
        TokenType::This
    } else if n == 4 && text[0] == 116 && text[1] == 114 && text[2] == 117 && text[3] == 101 {  // true
        proof {
            assert(text@ =~= seq![116u8, 114u8, 117u8, 101u8]);
        }
        TokenType::True
    } else if n == 3 && text[0] == 118 && text[1] == 97 && text[2] == 114 {  // var
        proof {
            assert(text@ =~= seq![118u8, 97u8, 114u8]);
        }
        TokenType::Var
    } else if n == 5 && text[0] == 119 && text[1] == 104 && text[2] == 105 && text[3] == 108
        && text[4] == 101 {  // while
        proof {
            assert(text@ =~= seq![119u8, 104u8, 105u8, 108u8, 101u8]);
        }
        TokenType::While
    } else {
        TokenType::Identifier(text)
    }
}

/// The one-shot stateful cursor that consumes a source text and drives token
/// and diagnostic production.
pub struct Scanner {
    /// The source text to scan, owned for the run.
    source: Vec<u8>,
    /// The output list of tokens.
    tokens: Vec<Token>,
    /// The output list of diagnostics.
    errors: Vec<ScannerError>,
    /// The start of the lexeme being scanned.
    start: usize,
    /// The cursor: the next byte to consume.
    current: usize,
    /// The 1-based line counter.
    line: usize,
}

impl Scanner {
    /// The source text being scanned.
    pub closed spec fn spec_source(&self) -> Seq<u8> {
        self.source@
    }

    /// The cursor position.
    pub closed spec fn spec_pos(&self) -> int {
        self.current as int
    }

    /// The line counter.
    pub closed spec fn spec_line(&self) -> int {
        self.line as int
    }

    /// The tokens produced so far.
    pub closed spec fn spec_tokens(&self) -> Seq<SpecToken> {
        view_tokens(self.tokens@)
    }

    /// The diagnostics produced so far.
    pub closed spec fn spec_errors(&self) -> Seq<SpecError> {
        view_errors(self.errors@)
    }

    /// Well-formedness: the cursor never passes the end of the input, and the
    /// line counter starts at 1 and grows by at most one per consumed byte.
    pub closed spec fn wf(&self) -> bool {
        &&& self.current as int <= self.source@.len()
        &&& self.source@.len() < usize::MAX as int
        &&& 1 <= self.line
        &&& self.line as int <= 1 + self.current as int
    }

    /// A fresh scanner over `source`: cursor at the start, line counter 1,
    /// nothing produced yet.
    pub fn new(source: Vec<u8>) -> (s: Scanner)
        requires
            source@.len() < usize::MAX as int,
        ensures
            s.wf(),
            s.spec_source() == source@,
            s.spec_pos() == 0,
            s.spec_line() == 1,
            s.spec_tokens() == Seq::<SpecToken>::empty(),
            s.spec_errors() == Seq::<SpecError>::empty(),
    {
        let s = Scanner {
            source,
            tokens: Vec::new(),
            errors: Vec::new(),
            start: 0,
            current: 0,
            line: 1,
        };
        proof {
            assert(s.spec_tokens() =~= Seq::<SpecToken>::empty());
            assert(s.spec_errors() =~= Seq::<SpecError>::empty());
        }
        s
    }

    /// Whether the cursor has consumed the entire input.
    fn is_at_end(&self) -> (b: bool)
        ensures
            b == (self.current as int >= self.source@.len()),
    {
        self.current >= self.source.len()
    }

    /// Consumes the byte under the cursor and returns it.
    fn advance(&mut self) -> (c: u8)
        requires
            (old(self).current as int) < old(self).source@.len(),
            old(self).source@.len() <= usize::MAX as int,
        ensures
            final(self).current == old(self).current + 1,
            c == old(self).source@[old(self).current as int],
            final(self).source == old(self).source,
            final(self).tokens == old(self).tokens,
            final(self).errors == old(self).errors,
            final(self).start == old(self).start,
            final(self).line == old(self).line,
    {
        let c = self.source[self.current];
        self.current = self.current + 1;
        c
    }

    /// The byte under the cursor, or 0 past the end, without consuming it.
    fn peek(&self) -> (c: u8)
        requires
            self.current as int <= self.source@.len(),
        ensures
            c == (if (self.current as int) < self.source@.len() {
                self.source@[self.current as int]
            } else {
                0u8
            }),
    {
        if self.current < self.source.len() {
            self.source[self.current]
        } else {
            0
        }
    }

    /// The byte after the cursor, or 0 past the end, without consuming it.
    fn peek_next(&self) -> (c: u8)
        requires
            self.current as int <= self.source@.len() < usize::MAX as int,
        ensures
            c == (if self.current as int + 1 < self.source@.len() {
                self.source@[self.current as int + 1]
            } else {
                0u8
            }),
    {
        if self.current + 1 < self.source.len() {
            self.source[self.current + 1]
        } else {
            0
        }
    }

    /// Consumes the byte under the cursor only if it is `expected`.
    fn match_(&mut self, expected: u8) -> (b: bool)
        requires
            old(self).current as int <= old(self).source@.len(),
        ensures
            b == ((old(self).current as int) < old(self).source@.len() && old(self).source@[old(
                self,
            ).current as int] == expected),
            final(self).current as int == (if b {
                old(self).current as int + 1
            } else {
                old(self).current as int
            }),
            final(self).source == old(self).source,
            final(self).tokens == old(self).tokens,
            final(self).errors == old(self).errors,
            final(self).start == old(self).start,
            final(self).line == old(self).line,
    {
        if self.current < self.source.len() && self.source[self.current] == expected {
            self.current = self.current + 1;
            true
        } else {
            false
        }
    }

    /// Emits a token of category `type_` whose lexeme is the source text from
    /// the lexeme start to the cursor, stamped with the current line.
    fn add_token(&mut self, type_: TokenType)
        requires
            old(self).start <= old(self).current,
            old(self).current as int <= old(self).source@.len(),
        ensures
            view_tokens(final(self).tokens@) == view_tokens(old(self).tokens@) + seq![
                (SpecToken {
                    type_: type_@,
                    lexeme: old(self).source@.subrange(
                        old(self).start as int,
                        old(self).current as int,
                    ),
                    line: old(self).line as int,
                }),
            ],
            final(self).source == old(self).source,
            final(self).errors == old(self).errors,
            final(self).start == old(self).start,
            final(self).current == old(self).current,
            final(self).line == old(self).line,
    {
        let text = copy_range(&self.source, self.start, self.current);
        let t = Token::new(type_, text, self.line);
        self.tokens.push(t);
        proof {
            assert(view_tokens(self.tokens@) =~= view_tokens(old(self).tokens@) + seq![t@]);
        }
    }

    /// Records a diagnostic of kind `error` at the current line.
    fn add_error(&mut self, error: ScannerErrorType)
        ensures
            view_errors(final(self).errors@) == view_errors(old(self).errors@) + seq![
                (SpecError { error, line: old(self).line as int }),
            ],
            final(self).source == old(self).source,
            final(self).tokens == old(self).tokens,
            final(self).start == old(self).start,
            final(self).current == old(self).current,
            final(self).line == old(self).line,
    {
        let e = ScannerError { error, line: self.line };
        self.errors.push(e);
        proof {
            assert(view_errors(self.errors@) =~= view_errors(old(self).errors@) + seq![e@]);
        }
    }

    /// Scans the rest of a string literal whose opening quote was just
    /// consumed, exactly as [`string_step`] says: on a closing quote it emits
    /// the string token, at the end of the input it records an
    /// unterminated-string diagnostic and emits nothing.
    fn string(&mut self)
        requires
            old(self).wf(),
            old(self).start as int + 1 == old(self).current as int,
        ensures
            final(self).wf(),
            final(self).source == old(self).source,
            final(self).start == old(self).start,
            ({
                let st = string_step(old(self).source@, old(self).start as int, old(self).line as int);
                &&& final(self).current as int == st.next
                &&& final(self).line as int == st.line
                &&& view_tokens(final(self).tokens@) == view_tokens(old(self).tokens@)
                    + step_tokens(st)
                &&& view_errors(final(self).errors@) == view_errors(old(self).errors@)
                    + step_errors(st)
            }),
    {
        let ghost s = self.source@;
        let ghost i = self.start as int;
        let ghost line0 = self.line as int;
        while self.current < self.source.len() && self.source[self.current] != B_QUOTE
            invariant
                self.wf(),
                self.source == old(self).source,
                self.tokens == old(self).tokens,
                self.errors == old(self).errors,
                self.start == old(self).start,
                s == self.source@,
                i == self.start as int,
                i + 1 <= self.current as int <= s.len(),
                forall|k: int| i + 1 <= k < self.current as int ==> s[k] != B_QUOTE,
                self.line as int == line0 + newlines_in(s, i + 1, self.current as int),
                line0 >= 1,
            decreases s.len() - self.current,
        {
            if self.source[self.current] == B_NEWLINE {
                self.line = self.line + 1;
            }
            proof {
                lemma_newlines_in_snoc(s, i + 1, self.current as int);
            }
            self.current = self.current + 1;
        }
        proof {
            lemma_run_end_is(s, i + 1, self.current as int, not_quote_pred());
        }
        if self.is_at_end() {
            self.add_error(ScannerErrorType::UnterminatedString);
            proof {
                let st = string_step(s, i, line0);
                assert(view_tokens(self.tokens@) =~= view_tokens(old(self).tokens@)
                    + step_tokens(st));
            }
            return;
        }
        // consume the closing quote
        let _ = self.advance();
        let content = copy_range(&self.source, self.start + 1, self.current - 1);
        self.add_token(TokenType::StringLit(content));
        proof {
            let st = string_step(s, i, line0);
            assert(view_errors(self.errors@) =~= view_errors(old(self).errors@) + step_errors(st));
        }
    }

    /// Scans the rest of a number literal whose first digit was just
    /// consumed, exactly as [`number_step`] says: the digit run, then a
    /// fractional part only when a `.` comes with a digit directly after it.
    fn number(&mut self)
        requires
            old(self).wf(),
            old(self).start as int + 1 == old(self).current as int,
        ensures
            final(self).wf(),
            final(self).source == old(self).source,
            final(self).start == old(self).start,
            final(self).errors == old(self).errors,
            ({
                let st = number_step(old(self).source@, old(self).start as int, old(self).line as int);
                &&& final(self).current as int == st.next
                &&& final(self).line as int == st.line
                &&& view_tokens(final(self).tokens@) == view_tokens(old(self).tokens@)
                    + step_tokens(st)
            }),
    {
        let ghost s = self.source@;
        let ghost i = self.start as int;
        while self.current < self.source.len() && is_digit_byte(self.source[self.current])
            invariant
                self.wf(),
                self.source == old(self).source,
                self.tokens == old(self).tokens,
                self.errors == old(self).errors,
                self.start == old(self).start,
                self.line == old(self).line,
                s == self.source@,
                i == self.start as int,
                i + 1 <= self.current as int <= s.len(),
                forall|k: int| i + 1 <= k < self.current as int ==> is_digit(s[k]),
            decreases s.len() - self.current,
        {
            self.current = self.current + 1;
        }
        proof {
            lemma_run_end_is(s, i + 1, self.current as int, digit_pred());
        }
        let ghost int_end = self.current as int;
        if self.peek() == B_DOT && is_digit_byte(self.peek_next()) {
            // consume the `.`
            let _ = self.advance();
            while self.current < self.source.len() && is_digit_byte(self.source[self.current])
                invariant
                    self.wf(),
                    self.source == old(self).source,
                    self.tokens == old(self).tokens,
                    self.errors == old(self).errors,
                    self.start == old(self).start,
                    self.line == old(self).line,
                    s == self.source@,
                    i == self.start as int,
                    int_end + 1 <= self.current as int <= s.len(),
                    forall|k: int| int_end + 1 <= k < self.current as int ==> is_digit(s[k]),
                decreases s.len() - self.current,
            {
                self.current = self.current + 1;
            }
            proof {
                lemma_run_end_is(s, int_end + 1, self.current as int, digit_pred());
            }
        }
        let text = copy_range(&self.source, self.start, self.current);
        self.add_token(TokenType::Number(text));
    }

    /// Scans the rest of an identifier or keyword whose first byte was just
    /// consumed, exactly as [`identifier_step`] says: the whole matched
    /// lexeme decides keyword vs. identifier.
    fn identifier(&mut self)
        requires
            old(self).wf(),
            old(self).start as int + 1 == old(self).current as int,
        ensures
            final(self).wf(),
            final(self).source == old(self).source,
            final(self).start == old(self).start,
            final(self).errors == old(self).errors,
            ({
                let st = identifier_step(
                    old(self).source@,
                    old(self).start as int,
                    old(self).line as int,
                );
                &&& final(self).current as int == st.next
                &&& final(self).line as int == st.line
                &&& view_tokens(final(self).tokens@) == view_tokens(old(self).tokens@)
                    + step_tokens(st)
            }),
    {
        let ghost s = self.source@;
        let ghost i = self.start as int;
        while self.current < self.source.len() && is_alnum_byte(self.source[self.current])
            invariant
                self.wf(),
                self.source == old(self).source,
                self.tokens == old(self).tokens,
                self.errors == old(self).errors,
                self.start == old(self).start,
                self.line == old(self).line,
                s == self.source@,
                i == self.start as int,
                i + 1 <= self.current as int <= s.len(),
                forall|k: int| i + 1 <= k < self.current as int ==> is_alnum(s[k]),
            decreases s.len() - self.current,
        {
            self.current = self.current + 1;
        }
        proof {
            lemma_run_end_is(s, i + 1, self.current as int, alnum_pred());
        }
        let text = copy_range(&self.source, self.start, self.current);
        let type_ = keyword_or_identifier(text);
        self.add_token(type_);
    }

    /// Consumes one lexeme at the cursor and emits what [`spec_step`] says it
    /// emits: one token, one diagnostic, or nothing.
    fn scan_token(&mut self)
        requires
            old(self).wf(),
            old(self).start == old(self).current,
            (old(self).current as int) < old(self).source@.len(),
        ensures
            final(self).wf(),
            final(self).source == old(self).source,
            ({
                let st = spec_step(old(self).source@, old(self).current as int, old(self).line as int);
                &&& final(self).current as int == st.next
                &&& final(self).line as int == st.line
                &&& view_tokens(final(self).tokens@) == view_tokens(old(self).tokens@)
                    + step_tokens(st)
                &&& view_errors(final(self).errors@) == view_errors(old(self).errors@)
                    + step_errors(st)
            }),
    {
        let ghost s = self.source@;
        let ghost i = self.current as int;
        let c = self.advance();
        if c == B_LPAREN {
            self.add_token(TokenType::LeftParen);
        } else if c == B_RPAREN {
            self.add_token(TokenType::RightParen);
        } else if c == B_LBRACE {
            self.add_token(TokenType::LeftBrace);
        } else if c == B_RBRACE {
            self.add_token(TokenType::RightBrace);
        } else if c == B_COMMA {
            self.add_token(TokenType::Comma);
        } else if c == B_DOT {
            self.add_token(TokenType::Dot);
        } else if c == B_MINUS {
            self.add_token(TokenType::Minus);
        } else if c == B_PLUS {
            self.add_token(TokenType::Plus);
        } else if c == B_SEMICOLON {
            self.add_token(TokenType::Semicolon);
        } else if c == B_STAR {
            self.add_token(TokenType::Star);
        } else if c == B_BANG {
            if self.match_(B_EQUAL) {
                self.add_token(TokenType::BangEqual);
            } else {
                self.add_token(TokenType::Bang);
            }
        } else if c == B_EQUAL {
            if self.match_(B_EQUAL) {
                self.add_token(TokenType::EqualEqual);
            } else {
                self.add_token(TokenType::Equal);
            }
        } else if c == B_LESS {
            if self.match_(B_EQUAL) {
                self.add_token(TokenType::LessEqual);
            } else {
                self.add_token(TokenType::Less);
            }
        } else if c == B_GREATER {
            if self.match_(B_EQUAL) {
                self.add_token(TokenType::GreaterEqual);
            } else {
                self.add_token(TokenType::Greater);
            }
        } else if c == B_SLASH {
            if self.match_(B_SLASH) {
                // a line comment runs to the newline, which stays for the
                // next step to consume and count
                while self.current < self.source.len() && self.source[self.current] != B_NEWLINE
                    invariant
                        self.wf(),
                        self.source == old(self).source,
                        self.tokens == old(self).tokens,
                        self.errors == old(self).errors,
                        self.start == old(self).start,
                        self.line == old(self).line,
                        s == self.source@,
                        i + 2 <= self.current as int <= s.len(),
                        forall|k: int| i + 2 <= k < self.current as int ==> s[k] != B_NEWLINE,
                    decreases s.len() - self.current,
                {
                    self.current = self.current + 1;
                }
                proof {
                    lemma_run_end_is(s, i + 2, self.current as int, not_newline_pred());
                }
            } else {
                self.add_token(TokenType::Slash);
            }
        } else if c == B_SPACE || c == B_CR || c == B_TAB {
            // whitespace: consumed, nothing emitted
        } else if c == B_NEWLINE {
            self.line = self.line + 1;
        } else if c == B_QUOTE {
            self.string();
        } else if is_digit_byte(c) {
            self.number();
        } else if is_alpha_byte(c) {
            self.identifier();
        } else {
            self.add_error(ScannerErrorType::UnexpectedCharacter(c));
        }
        proof {
            assert(view_errors(old(self).errors@) + Seq::<SpecError>::empty() =~= view_errors(
                old(self).errors@,
            ));
            assert(view_tokens(old(self).tokens@) + Seq::<SpecToken>::empty() =~= view_tokens(
                old(self).tokens@,
            ));
        }
    }

    /// Runs the whole scan. On zero diagnostics it returns the complete token
    /// list, closed by the end-of-input token with an empty lexeme and the
    /// final line counter; on one or more diagnostics it returns the complete
    /// diagnostic list instead, and no tokens. [`spec_scan_from`] names both
    /// lists exactly.
    pub fn scan_tokens(self) -> (r: Result<Vec<Token>, Vec<ScannerError>>)
        requires
            self.wf(),
        ensures
            ({
                let res = spec_scan_from(self.spec_source(), self.spec_pos(), self.spec_line());
                match r {
                    Ok(tokens) => {
                        &&& (self.spec_errors() + res.errors).len() == 0
                        &&& view_tokens(tokens@) == self.spec_tokens() + res.tokens + seq![
                            (SpecToken {
                                type_: SpecTokenType::Eof,
                                lexeme: Seq::<u8>::empty(),
                                line: res.line,
                            }),
                        ]
                    },
                    Err(errors) => {
                        &&& (self.spec_errors() + res.errors).len() > 0
                        &&& view_errors(errors@) == self.spec_errors() + res.errors
                    },
                }
            }),
    {
        let ghost orig = self;
        let ghost target = spec_scan_from(orig.source@, orig.current as int, orig.line as int);
        let mut this = self;
        while this.current < this.source.len()
            invariant
                this.wf(),
                this.source == orig.source,
                target == spec_scan_from(orig.source@, orig.current as int, orig.line as int),
                view_tokens(orig.tokens@) + target.tokens == view_tokens(this.tokens@)
                    + spec_scan_from(orig.source@, this.current as int, this.line as int).tokens,
                view_errors(orig.errors@) + target.errors == view_errors(this.errors@)
                    + spec_scan_from(orig.source@, this.current as int, this.line as int).errors,
                spec_scan_from(orig.source@, this.current as int, this.line as int).line
                    == target.line,
            decreases this.source@.len() - this.current,
        {
            let ghost p = this.current as int;
            let ghost l = this.line as int;
            let ghost toks_before = view_tokens(this.tokens@);
            let ghost errs_before = view_errors(this.errors@);
            // the cursor is the start of the next lexeme
            this.start = this.current;
            this.scan_token();
            proof {
                lemma_step_bounds(orig.source@, p, l);
                let st = spec_step(orig.source@, p, l);
                let rest = spec_scan_from(orig.source@, st.next, st.line);
                assert(toks_before + (step_tokens(st) + rest.tokens) =~= (toks_before
                    + step_tokens(st)) + rest.tokens);
                assert(errs_before + (step_errors(st) + rest.errors) =~= (errs_before
                    + step_errors(st)) + rest.errors);
            }
        }
        proof {
            assert(view_tokens(orig.tokens@) + target.tokens =~= view_tokens(this.tokens@));
            assert(view_errors(orig.errors@) + target.errors =~= view_errors(this.errors@));
        }
        if this.errors.len() == 0 {
            // close the token list with the end-of-input sentinel
            let eof = Token::new(TokenType::Eof, Vec::new(), this.line);
            let ghost toks = view_tokens(this.tokens@);
            let mut tokens = this.tokens;
            tokens.push(eof);
            proof {
                assert(view_tokens(tokens@) =~= toks.push(eof@));
                lemma_push_is_concat(toks, eof@);
            }
            Ok(tokens)
        } else {
            Err(this.errors)
        }
    }
}

} // verus!

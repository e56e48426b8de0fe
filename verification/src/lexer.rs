//! The lexer: a single left-to-right pass over the text that produces the
//! token sequence, synthesizing `INDENT`/`DEDENT`/`NEWLINE` tokens from
//! whitespace layout under the colon-gated off-side rule.
//!
//! The meaning of tokenization is given by [`spec_tokenize`], a recursive
//! function over the character sequence; [`Lexer::tokenize`] is proved to
//! return exactly its value.

use crate::token::spec_keyword;
use crate::token::Token;
use crate::token::TokenModel;
use crate::token::TokenType;
use crate::token::tokens_view;
use vstd::prelude::*;
use vstd::string::StrSliceExecFns;
use vstd::string::StringExecFns;

verus! {

/// A tokenization failure; the position is 1-based and names the first
/// offending character.
#[derive(Clone, Copy, Debug, PartialEq, Eq, Structural)]
pub enum LexError {
    UnexpectedCharacter { ch: char, line: usize, col: usize },
    UnterminatedString { line: usize, col: usize },
}

/// Mathematical model of a tokenization failure.
pub enum LexErrModel {
    UnexpectedCharacter { ch: char, line: int, col: int },
    UnterminatedString { line: int, col: int },
}

impl View for LexError {
    type V = LexErrModel;

    open spec fn view(&self) -> LexErrModel {
        match *self {
            LexError::UnexpectedCharacter { ch, line, col } => LexErrModel::UnexpectedCharacter {
                ch,
                line: line as int,
                col: col as int,
            },
            LexError::UnterminatedString { line, col } => LexErrModel::UnterminatedString {
                line: line as int,
                col: col as int,
            },
        }
    }
}

/// Mathematical model of the scan state: the text, the cursor, the stack of
/// open indentation widths, and the two layout flags. Line and column are
/// derived from the cursor by [`spec_line`] and [`spec_col`].
#[verifier::ext_equal]
pub struct LexState {
    pub input: Seq<char>,
    pub pos: int,
    pub stack: Seq<usize>,
    pub at_line_start: bool,
    pub pending_indent: bool,
}

/// The state at the start of a scan.
pub open spec fn init_state(input: Seq<char>) -> LexState {
    LexState { input, pos: 0, stack: seq![0usize], at_line_start: true, pending_indent: false }
}

/// The same state with the cursor moved.
pub open spec fn with_pos(st: LexState, p: int) -> LexState {
    LexState {
        input: st.input,
        pos: p,
        stack: st.stack,
        at_line_start: st.at_line_start,
        pending_indent: st.pending_indent,
    }
}

/// 1-based line of the character at position `p`: one more than the number of
/// newlines before it.
pub open spec fn spec_line(s: Seq<char>, p: int) -> int
    decreases p,
{
    if p <= 0 {
        1
    } else {
        spec_line(s, p - 1) + if s[p - 1] == '\n' {
            1int
        } else {
            0int
        }
    }
}

/// 1-based column of the character at position `p`: one more than its
/// distance from the last newline before it.
pub open spec fn spec_col(s: Seq<char>, p: int) -> int
    decreases p,
{
    if p <= 0 {
        1
    } else if s[p - 1] == '\n' {
        1
    } else {
        spec_col(s, p - 1) + 1
    }
}

pub proof fn lemma_position_bounds(s: Seq<char>, p: int)
    requires
        0 <= p,
    ensures
        1 <= spec_line(s, p) <= p + 1,
        1 <= spec_col(s, p) <= p + 1,
    decreases p,
{
    if p > 0 {
        lemma_position_bounds(s, p - 1);
    }
}

/// Unicode alphabetic characters, as `char::is_alphabetic` classifies them.
pub uninterp spec fn alphabetic(c: char) -> bool;

/// Unicode numeric characters, as `char::is_numeric` classifies them.
pub uninterp spec fn numeric(c: char) -> bool;

/// Relies on `char::is_alphabetic`: whether the character has the Unicode
/// `Alphabetic` property, a function of the character alone.
#[verifier::external_body]
fn is_alphabetic_char(c: char) -> (r: bool)
    ensures
        r == alphabetic(c),
{
    c.is_alphabetic()
}

/// Relies on `char::is_alphanumeric`, which its documentation defines as
/// `is_alphabetic` or `is_numeric`, each a function of the character alone.
#[verifier::external_body]
fn is_alphanumeric_char(c: char) -> (r: bool)
    ensures
        r == (alphabetic(c) || numeric(c)),
{
    c.is_alphanumeric()
}

/// Relies on `String::push`: appends one character at the end.
#[verifier::external_body]
pub(crate) fn push_char(s: &mut String, c: char)
    ensures
        final(s)@ == old(s)@.push(c),
{
    s.push(c)
}

/// ASCII decimal digits.
pub open spec fn is_digit(c: char) -> bool {
    ('0' as u32) <= (c as u32) && (c as u32) <= ('9' as u32)
}

/// A character that may begin an identifier.
pub open spec fn is_ident_start(c: char) -> bool {
    alphabetic(c) || c == '_'
}

/// A character that may continue an identifier.
pub open spec fn is_ident_char(c: char) -> bool {
    alphabetic(c) || numeric(c) || c == '_'
}

/// Whitespace that is skipped inside a line.
pub open spec fn is_inline_ws(c: char) -> bool {
    c == ' ' || c == '\t' || c == '\r'
}

/// First position at or after `p` that ends the inline-whitespace run.
pub open spec fn ws_end(s: Seq<char>, p: int) -> int
    decreases s.len() - p,
{
    if p < 0 || p >= s.len() || !is_inline_ws(s[p]) {
        p
    } else {
        ws_end(s, p + 1)
    }
}

/// First position at or after `p` holding a newline, or the end of the text.
pub open spec fn line_end(s: Seq<char>, p: int) -> int
    decreases s.len() - p,
{
    if p < 0 || p >= s.len() || s[p] == '\n' {
        p
    } else {
        line_end(s, p + 1)
    }
}

/// First position at or after `p` that ends the digit run.
pub open spec fn digits_end(s: Seq<char>, p: int) -> int
    decreases s.len() - p,
{
    if p < 0 || p >= s.len() || !is_digit(s[p]) {
        p
    } else {
        digits_end(s, p + 1)
    }
}

/// First position at or after `p` that ends the identifier run.
pub open spec fn ident_end(s: Seq<char>, p: int) -> int
    decreases s.len() - p,
{
    if p < 0 || p >= s.len() || !is_ident_char(s[p]) {
        p
    } else {
        ident_end(s, p + 1)
    }
}

/// First position at or after `p` that ends the run of indentation
/// characters (spaces and tabs).
pub open spec fn indent_char_end(s: Seq<char>, p: int) -> int
    decreases s.len() - p,
{
    if p < 0 || p >= s.len() || !(s[p] == ' ' || s[p] == '\t') {
        p
    } else {
        indent_char_end(s, p + 1)
    }
}

/// Indentation width of the run `[p, end)`: one column per space, four per
/// tab, additive.
pub open spec fn indent_width(s: Seq<char>, p: int, end: int) -> int
    decreases end - p,
{
    if p >= end {
        0
    } else {
        (if s[p] == '\t' {
            4int
        } else {
            1int
        }) + indent_width(s, p + 1, end)
    }
}

pub proof fn lemma_ws_end_bounds(s: Seq<char>, p: int)
    requires
        0 <= p <= s.len(),
    ensures
        p <= ws_end(s, p) <= s.len(),
    decreases s.len() - p,
{
    if p < s.len() && is_inline_ws(s[p]) {
        lemma_ws_end_bounds(s, p + 1);
    }
}

pub proof fn lemma_line_end_bounds(s: Seq<char>, p: int)
    requires
        0 <= p <= s.len(),
    ensures
        p <= line_end(s, p) <= s.len(),
    decreases s.len() - p,
{
    if p < s.len() && s[p] != '\n' {
        lemma_line_end_bounds(s, p + 1);
    }
}

pub proof fn lemma_digits_end_bounds(s: Seq<char>, p: int)
    requires
        0 <= p <= s.len(),
    ensures
        p <= digits_end(s, p) <= s.len(),
    decreases s.len() - p,
{
    if p < s.len() && is_digit(s[p]) {
        lemma_digits_end_bounds(s, p + 1);
    }
}

pub proof fn lemma_ident_end_bounds(s: Seq<char>, p: int)
    requires
        0 <= p <= s.len(),
    ensures
        p <= ident_end(s, p) <= s.len(),
    decreases s.len() - p,
{
    if p < s.len() && is_ident_char(s[p]) {
        lemma_ident_end_bounds(s, p + 1);
    }
}

pub proof fn lemma_indent_char_end_bounds(s: Seq<char>, p: int)
    requires
        0 <= p <= s.len(),
    ensures
        p <= indent_char_end(s, p) <= s.len(),
    decreases s.len() - p,
{
    if p < s.len() && (s[p] == ' ' || s[p] == '\t') {
        lemma_indent_char_end_bounds(s, p + 1);
    }
}

pub proof fn lemma_indent_width_bounds(s: Seq<char>, p: int, end: int)
    requires
        p <= end,
    ensures
        0 <= indent_width(s, p, end) <= 4 * (end - p),
    decreases end - p,
{
    if p < end {
        lemma_indent_width_bounds(s, p + 1, end);
    }
}

/// Appending one more indentation character on the right.
pub proof fn lemma_indent_width_snoc(s: Seq<char>, p: int, end: int)
    requires
        p <= end,
    ensures
        indent_width(s, p, end + 1) == indent_width(s, p, end) + (if s[end] == '\t' {
            4int
        } else {
            1int
        }),
    decreases end - p,
{
    if p < end {
        lemma_indent_width_snoc(s, p + 1, end);
    } else {
        assert(indent_width(s, p + 1, end + 1) == 0);
        assert(indent_width(s, p, end) == 0);
    }
}

/// What an escaped character in a string literal denotes.
pub open spec fn escape_char(c: char) -> char {
    match c {
        'n' => '\n',
        't' => '\t',
        'r' => '\r',
        _ => c,
    }
}

/// The translated text of a string literal's body, scanning at `p` (just
/// after the opening quote), and the position just past the closing quote;
/// or `Err` if the text ends first.
pub open spec fn string_body(s: Seq<char>, p: int) -> Result<(Seq<char>, int), ()>
    decreases s.len() - p,
{
    if p < 0 || p >= s.len() {
        Err(())
    } else if s[p] == '\'' {
        Ok((Seq::empty(), p + 1))
    } else if s[p] == '\\' {
        if p + 1 < s.len() {
            match string_body(s, p + 2) {
                Ok((t, e)) => Ok((seq![escape_char(s[p + 1])] + t, e)),
                Err(u) => Err(u),
            }
        } else {
            Err(())
        }
    } else {
        match string_body(s, p + 1) {
            Ok((t, e)) => Ok((seq![s[p]] + t, e)),
            Err(u) => Err(u),
        }
    }
}

/// A token model positioned at `p`.
pub open spec fn tok_at(s: Seq<char>, p: int, ty: TokenType, text: Seq<char>) -> TokenModel {
    TokenModel { ty, text, line: spec_line(s, p), col: spec_col(s, p) }
}

/// The numeric literal starting at `p` and the position after it. An
/// integer unless a decimal point occurs that is not immediately followed
/// by another `.`; a leading `.` (with a digit after it) is a float.
pub open spec fn spec_scan_number(s: Seq<char>, p: int) -> (TokenModel, int) {
    let q = if s[p] == '.' {
        p + 1
    } else {
        p
    };
    let e1 = digits_end(s, q);
    if e1 < s.len() && s[e1] == '.' && !(e1 + 1 < s.len() && s[e1 + 1] == '.') {
        let e2 = digits_end(s, e1 + 1);
        (tok_at(s, p, TokenType::Float, s.subrange(p, e2)), e2)
    } else {
        let ty = if s[p] == '.' {
            TokenType::Float
        } else {
            TokenType::Integer
        };
        (tok_at(s, p, ty, s.subrange(p, e1)), e1)
    }
}

/// The identifier or keyword starting at `p` and the position after it.
pub open spec fn spec_scan_identifier(s: Seq<char>, p: int) -> (TokenModel, int) {
    let e = ident_end(s, p);
    let text = s.subrange(p, e);
    let ty = match spec_keyword(text) {
        Some(k) => k,
        None => TokenType::Identifier,
    };
    (tok_at(s, p, ty, text), e)
}

/// The string literal whose opening quote is at `p`, and the position after
/// its closing quote; or the error if the text ends inside it.
pub open spec fn spec_scan_string(s: Seq<char>, p: int) -> Result<(TokenModel, int), LexErrModel> {
    match string_body(s, p + 1) {
        Ok((t, e)) => Ok((tok_at(s, p, TokenType::String, t), e)),
        Err(_) => Err(
            LexErrModel::UnterminatedString { line: spec_line(s, p), col: spec_col(s, p) },
        ),
    }
}

/// The next token at position `p` (not inside indentation handling, not at a
/// comment, `p` in range): the token, the position after it, and whether it
/// was a newline (which moves the scan to a fresh line).
pub open spec fn spec_next_token(s: Seq<char>, p: int) -> Result<
    (TokenModel, int, bool),
    LexErrModel,
> {
    let c = s[p];
    let two = p + 1 < s.len();
    if c == '\n' {
        Ok((tok_at(s, p, TokenType::Newline, "\n"@), p + 1, true))
    } else if c == '+' {
        Ok((tok_at(s, p, TokenType::Plus, "+"@), p + 1, false))
    } else if c == '-' {
        Ok((tok_at(s, p, TokenType::Minus, "-"@), p + 1, false))
    } else if c == '*' {
        if two && s[p + 1] == '*' {
            Ok((tok_at(s, p, TokenType::Power, "**"@), p + 2, false))
        } else {
            Ok((tok_at(s, p, TokenType::Star, "*"@), p + 1, false))
        }
    } else if c == '/' {
        Ok((tok_at(s, p, TokenType::Slash, "/"@), p + 1, false))
    } else if c == '%' {
        Ok((tok_at(s, p, TokenType::Percent, "%"@), p + 1, false))
    } else if c == '=' {
        if two && s[p + 1] == '=' {
            Ok((tok_at(s, p, TokenType::EqualsEquals, "=="@), p + 2, false))
        } else {
            Ok((tok_at(s, p, TokenType::Equals, "="@), p + 1, false))
        }
    } else if c == '!' {
        if two && s[p + 1] == '=' {
            Ok((tok_at(s, p, TokenType::NotEquals, "!="@), p + 2, false))
        } else {
            Ok((tok_at(s, p, TokenType::Not, "!"@), p + 1, false))
        }
    } else if c == '<' {
        if two && s[p + 1] == '=' {
            Ok((tok_at(s, p, TokenType::LessEquals, "<="@), p + 2, false))
        } else {
            Ok((tok_at(s, p, TokenType::Less, "<"@), p + 1, false))
        }
    } else if c == '>' {
        if two && s[p + 1] == '=' {
            Ok((tok_at(s, p, TokenType::GreaterEquals, ">="@), p + 2, false))
        } else {
            Ok((tok_at(s, p, TokenType::Greater, ">"@), p + 1, false))
        }
    } else if c == '~' {
        Ok((tok_at(s, p, TokenType::Tilde, "~"@), p + 1, false))
    } else if c == '&' {
        Ok((tok_at(s, p, TokenType::Ampersand, "&"@), p + 1, false))
    } else if c == '|' {
        Ok((tok_at(s, p, TokenType::Pipe, "|"@), p + 1, false))
    } else if c == '.' {
        if two && s[p + 1] == '.' {
            Ok((tok_at(s, p, TokenType::DotDot, ".."@), p + 2, false))
        } else if two && is_digit(s[p + 1]) {
            let (t, e) = spec_scan_number(s, p);
            Ok((t, e, false))
        } else {
            Ok((tok_at(s, p, TokenType::Dot, "."@), p + 1, false))
        }
    } else if c == '@' {
        Ok((tok_at(s, p, TokenType::At, "@"@), p + 1, false))
    } else if c == '(' {
        Ok((tok_at(s, p, TokenType::Lparen, "("@), p + 1, false))
    } else if c == ')' {
        Ok((tok_at(s, p, TokenType::Rparen, ")"@), p + 1, false))
    } else if c == '{' {
        Ok((tok_at(s, p, TokenType::Lbrace, "{"@), p + 1, false))
    } else if c == '}' {
        Ok((tok_at(s, p, TokenType::Rbrace, "}"@), p + 1, false))
    } else if c == '[' {
        Ok((tok_at(s, p, TokenType::Lsquare, "["@), p + 1, false))
    } else if c == ']' {
        Ok((tok_at(s, p, TokenType::Rsquare, "]"@), p + 1, false))
    } else if c == ',' {
        Ok((tok_at(s, p, TokenType::Comma, ","@), p + 1, false))
    } else if c == ':' {
        Ok((tok_at(s, p, TokenType::Colon, ":"@), p + 1, false))
    } else if c == '\'' {
        match spec_scan_string(s, p) {
            Ok((t, e)) => Ok((t, e, false)),
            Err(e) => Err(e),
        }
    } else if is_digit(c) {
        let (t, e) = spec_scan_number(s, p);
        Ok((t, e, false))
    } else if is_ident_start(c) {
        let (t, e) = spec_scan_identifier(s, p);
        Ok((t, e, false))
    } else {
        Err(LexErrModel::UnexpectedCharacter { ch: c, line: spec_line(s, p), col: spec_col(s, p) })
    }
}

/// The `DEDENT` tokens emitted when the indentation falls to `level`, and
/// the stack that remains: one token per stack entry above `level`.
pub open spec fn dedent_tokens(stack: Seq<usize>, level: usize, line: int, col: int) -> (
    Seq<TokenModel>,
    Seq<usize>,
)
    decreases stack.len(),
{
    if stack.len() == 0 || stack.last() <= level {
        (Seq::empty(), stack)
    } else {
        let (ts, rest) = dedent_tokens(stack.drop_last(), level, line, col);
        (seq![TokenModel { ty: TokenType::Dedent, text: Seq::empty(), line, col }] + ts, rest)
    }
}

/// The structural tokens emitted at the start of a non-blank line indented
/// to `width`, and the new indent stack: one `INDENT` if a block was opened
/// by a pending colon, or the `DEDENT`s unwinding to `width`, or nothing.
pub open spec fn spec_indent_step(
    stack: Seq<usize>,
    pending: bool,
    width: int,
    line: int,
    col: int,
) -> (Seq<TokenModel>, Seq<usize>) {
    if pending && width > stack.last() {
        (
            seq![TokenModel { ty: TokenType::Indent, text: Seq::empty(), line, col }],
            stack.push(width as usize),
        )
    } else if width < stack.last() {
        dedent_tokens(stack, width as usize, line, col)
    } else {
        (Seq::empty(), stack)
    }
}

/// The `DEDENT` tokens that unwind every open indentation level at the end
/// of the text.
pub open spec fn final_dedents(stack: Seq<usize>, line: int, col: int) -> Seq<TokenModel>
    decreases stack.len(),
{
    if stack.len() <= 1 {
        Seq::empty()
    } else {
        seq![TokenModel { ty: TokenType::Dedent, text: Seq::empty(), line, col }] + final_dedents(
            stack.drop_last(),
            line,
            col,
        )
    }
}

/// Success: these tokens, then the rest; failure: the failure.
pub open spec fn prepend_tokens(
    pre: Seq<TokenModel>,
    r: Result<Seq<TokenModel>, LexErrModel>,
) -> Result<Seq<TokenModel>, LexErrModel> {
    match r {
        Ok(ts) => Ok(pre + ts),
        Err(e) => Err(e),
    }
}

/// The tokens emitted from state `st` to the end of the scan, starting at
/// the top of the scan loop. Handles the start of a physical line: blank
/// lines and comment lines are skipped whole; otherwise the indentation is
/// measured and the structural tokens of [`spec_indent_step`] are emitted.
///
/// Positions that helper scans return are clamped forward with `max` so the
/// recursion is visibly bounded; the clamps are inert, since a scan never
/// moves the cursor backwards.
pub open spec fn spec_lex_from(st: LexState) -> Result<Seq<TokenModel>, LexErrModel>
    decreases vstd::math::max(st.input.len() - st.pos, 0), 1int,
{
    let s = st.input;
    if st.at_line_start && 0 <= st.pos < s.len() {
        if s[st.pos] == '\n' {
            spec_lex_from(with_pos(st, st.pos + 1))
        } else if s[st.pos] == '/' && st.pos + 1 < s.len() && s[st.pos + 1] == '/' {
            spec_lex_from(with_pos(st, vstd::math::max(st.pos + 1, line_end(s, st.pos))))
        } else {
            let p1 = vstd::math::max(st.pos, indent_char_end(s, st.pos));
            let width = indent_width(s, st.pos, p1);
            let (emitted, stack2) = spec_indent_step(
                st.stack,
                st.pending_indent,
                width,
                spec_line(s, p1),
                spec_col(s, p1),
            );
            prepend_tokens(
                emitted,
                spec_lex_line(
                    LexState {
                        input: s,
                        pos: p1,
                        stack: stack2,
                        at_line_start: false,
                        pending_indent: false,
                    },
                ),
            )
        }
    } else {
        spec_lex_line(st)
    }
}

/// The tokens emitted from state `st` to the end of the scan, inside a
/// line: inline whitespace is skipped, a comment is skipped to the end of
/// the line, and otherwise one token is taken and the scan continues. At
/// the end of the text, the remaining `DEDENT`s and the single `EOF`.
pub open spec fn spec_lex_line(st: LexState) -> Result<Seq<TokenModel>, LexErrModel>
    decreases vstd::math::max(st.input.len() - st.pos, 0), 0int,
{
    let s = st.input;
    if st.pos >= s.len() || st.pos < 0 {
        Ok(
            final_dedents(st.stack, spec_line(s, st.pos), spec_col(s, st.pos)).push(
                tok_at(s, st.pos, TokenType::Eof, Seq::empty()),
            ),
        )
    } else {
        let p2 = vstd::math::max(st.pos, ws_end(s, st.pos));
        if p2 >= s.len() {
            Ok(
                final_dedents(st.stack, spec_line(s, p2), spec_col(s, p2)).push(
                    tok_at(s, p2, TokenType::Eof, Seq::empty()),
                ),
            )
        } else if s[p2] == '/' && p2 + 1 < s.len() && s[p2 + 1] == '/' {
            spec_lex_line(with_pos(st, vstd::math::max(st.pos + 1, line_end(s, p2))))
        } else {
            match spec_next_token(s, p2) {
                Ok((t, e, nl)) => {
                    let st2 = LexState {
                        input: s,
                        pos: vstd::math::max(st.pos + 1, e),
                        stack: st.stack,
                        at_line_start: nl,
                        pending_indent: st.pending_indent || t.ty == TokenType::Colon,
                    };
                    prepend_tokens(seq![t], spec_lex_from(st2))
                },
                Err(e) => Err(e),
            }
        }
    }
}

/// What tokenizing a text yields: the full token sequence, or the first
/// lexical failure. The token sequence of every text is this function's
/// value — tokenization is deterministic.
pub open spec fn spec_tokenize(input: Seq<char>) -> Result<Seq<TokenModel>, LexErrModel> {
    spec_lex_from(init_state(input))
}

/// Prepending a translated character to a string literal's body.
pub open spec fn string_prepend(pre: Seq<char>, r: Result<(Seq<char>, int), ()>) -> Result<
    (Seq<char>, int),
    (),
> {
    match r {
        Ok((t, e)) => Ok((pre + t, e)),
        Err(u) => Err(u),
    }
}

/// The tokenizer: one pass over the owned character buffer. The scan state
/// is the model [`LexState`]; the tracked line and column always agree with
/// the cursor.
pub struct Lexer {
    input: Vec<char>,
    position: usize,
    line: usize,
    column: usize,
    indent_stack: Vec<usize>,
    at_line_start: bool,
    pending_indent: bool,
}

impl View for Lexer {
    type V = LexState;

    closed spec fn view(&self) -> LexState {
        LexState {
            input: self.input@,
            pos: self.position as int,
            stack: self.indent_stack@,
            at_line_start: self.at_line_start,
            pending_indent: self.pending_indent,
        }
    }
}

/// The cursor moved one character forward, if any is left.
pub open spec fn spec_advance(st: LexState) -> LexState {
    if 0 <= st.pos < st.input.len() {
        with_pos(st, st.pos + 1)
    } else {
        st
    }
}

impl Lexer {
    /// Well-formedness: the cursor is in range, the input leaves the room
    /// the width arithmetic needs, the tracked position agrees with the
    /// cursor, and the base indentation level is open.
    pub closed spec fn wf(self) -> bool {
        &&& self.position <= self.input@.len()
        &&& self.input@.len() < usize::MAX / 4
        &&& self.line as int == spec_line(self.input@, self.position as int)
        &&& self.column as int == spec_col(self.input@, self.position as int)
        &&& self.indent_stack@.len() >= 1
        &&& self.indent_stack@[0] == 0
    }

    /// Readies a scan of `input` from its first character. The length bound
    /// is a machine limit: a tab is four columns wide, and widths are
    /// measured in `usize`.
    pub fn new(input: &str) -> (l: Lexer)
        requires
            input@.len() < usize::MAX / 4,
        ensures
            l.wf(),
            l@ == init_state(input@),
    {
        let n = input.unicode_len();
        let mut v: Vec<char> = Vec::new();
        let mut i: usize = 0;
        while i < n
            invariant
                n == input@.len(),
                i <= n,
                v@ == input@.subrange(0, i as int),
            decreases n - i,
        {
            let c = input.get_char(i);
            v.push(c);
            proof {
                assert(v@ =~= input@.subrange(0, i as int + 1));
            }
            i = i + 1;
        }
        proof {
            assert(v@ =~= input@);
        }
        let mut stack: Vec<usize> = Vec::new();
        stack.push(0);
        let l = Lexer {
            input: v,
            position: 0,
            line: 1,
            column: 1,
            indent_stack: stack,
            at_line_start: true,
            pending_indent: false,
        };
        proof {
            assert(l.indent_stack@ =~= seq![0usize]);
            assert(l@ =~= init_state(input@));
        }
        l
    }

    fn is_at_end(&self) -> (r: bool)
        ensures
            r == (self@.pos >= self@.input.len()),
    {
        self.position >= self.input.len()
    }

    fn current_char(&self) -> (c: char)
        requires
            0 <= self@.pos < self@.input.len(),
        ensures
            c == self@.input[self@.pos],
    {
        self.input[self.position]
    }

    fn current_char_if_not_end(&self) -> (r: Option<char>)
        ensures
            r == (if self@.pos < self@.input.len() {
                Some(self@.input[self@.pos])
            } else {
                None::<char>
            }),
    {
        if self.position < self.input.len() {
            Some(self.input[self.position])
        } else {
            None
        }
    }

    fn peek(&self) -> (r: Option<char>)
        requires
            self.wf(),
        ensures
            r == (if self@.pos + 1 < self@.input.len() {
                Some(self@.input[self@.pos + 1])
            } else {
                None::<char>
            }),
    {
        if self.position + 1 < self.input.len() {
            Some(self.input[self.position + 1])
        } else {
            None
        }
    }

    fn advance(&mut self)
        requires
            old(self).wf(),
        ensures
            final(self).wf(),
            final(self)@ == spec_advance(old(self)@),
    {
        if self.position < self.input.len() {
            proof {
                lemma_position_bounds(self.input@, self.position as int);
            }
            let c = self.input[self.position];
            if c == '\n' {
                self.line = self.line + 1;
                self.column = 1;
            } else {
                self.column = self.column + 1;
            }
            self.position = self.position + 1;
            proof {
                assert(self@ =~= with_pos(old(self)@, old(self)@.pos + 1));
            }
        }
    }

    fn skip_whitespace_inline(&mut self)
        requires
            old(self).wf(),
        ensures
            final(self).wf(),
            final(self)@ == with_pos(old(self)@, ws_end(old(self)@.input, old(self)@.pos)),
    {
        loop
            invariant
                self.wf(),
                self@.input == old(self)@.input,
                self@.stack == old(self)@.stack,
                self@.at_line_start == old(self)@.at_line_start,
                self@.pending_indent == old(self)@.pending_indent,
                old(self)@.pos <= self@.pos,
                ws_end(self@.input, old(self)@.pos) == ws_end(self@.input, self@.pos),
            ensures
                self.wf(),
                self@ == with_pos(old(self)@, ws_end(old(self)@.input, old(self)@.pos)),
            decreases self@.input.len() - self@.pos,
        {
            if self.is_at_end() {
                proof {
                    assert(self@ =~= with_pos(old(self)@, ws_end(old(self)@.input, old(self)@.pos)));
                }
                break;
            }
            let c = self.current_char();
            if c == ' ' || c == '\t' || c == '\r' {
                self.advance();
            } else {
                proof {
                    assert(self@ =~= with_pos(old(self)@, ws_end(old(self)@.input, old(self)@.pos)));
                }
                break;
            }
        }
    }

    fn skip_comment(&mut self)
        requires
            old(self).wf(),
        ensures
            final(self).wf(),
            final(self)@ == with_pos(old(self)@, line_end(old(self)@.input, old(self)@.pos)),
    {
        loop
            invariant
                self.wf(),
                self@.input == old(self)@.input,
                self@.stack == old(self)@.stack,
                self@.at_line_start == old(self)@.at_line_start,
                self@.pending_indent == old(self)@.pending_indent,
                old(self)@.pos <= self@.pos,
                line_end(self@.input, old(self)@.pos) == line_end(self@.input, self@.pos),
            ensures
                self.wf(),
                self@ == with_pos(old(self)@, line_end(old(self)@.input, old(self)@.pos)),
            decreases self@.input.len() - self@.pos,
        {
            if self.is_at_end() {
                proof {
                    assert(self@ =~= with_pos(
                        old(self)@,
                        line_end(old(self)@.input, old(self)@.pos),
                    ));
                }
                break;
            }
            let c = self.current_char();
            if c == '\n' {
                proof {
                    assert(self@ =~= with_pos(
                        old(self)@,
                        line_end(old(self)@.input, old(self)@.pos),
                    ));
                }
                break;
            }
            self.advance();
        }
    }

    fn count_indentation(&mut self) -> (count: usize)
        requires
            old(self).wf(),
        ensures
            final(self).wf(),
            final(self)@ == with_pos(
                old(self)@,
                indent_char_end(old(self)@.input, old(self)@.pos),
            ),
            count as int == indent_width(
                old(self)@.input,
                old(self)@.pos,
                indent_char_end(old(self)@.input, old(self)@.pos),
            ),
    {
        let mut count: usize = 0;
        loop
            invariant
                self.wf(),
                self@.input == old(self)@.input,
                self@.stack == old(self)@.stack,
                self@.at_line_start == old(self)@.at_line_start,
                self@.pending_indent == old(self)@.pending_indent,
                old(self)@.pos <= self@.pos,
                indent_char_end(self@.input, old(self)@.pos) == indent_char_end(
                    self@.input,
                    self@.pos,
                ),
                count as int == indent_width(self@.input, old(self)@.pos, self@.pos),
                count as int <= 4 * (self@.pos - old(self)@.pos),
            ensures
                self.wf(),
                self@ == with_pos(old(self)@, indent_char_end(old(self)@.input, old(self)@.pos)),
                count as int == indent_width(
                    old(self)@.input,
                    old(self)@.pos,
                    indent_char_end(old(self)@.input, old(self)@.pos),
                ),
            decreases self@.input.len() - self@.pos,
        {
            if self.is_at_end() {
                proof {
                    assert(self@ =~= with_pos(
                        old(self)@,
                        indent_char_end(old(self)@.input, old(self)@.pos),
                    ));
                }
                break;
            }
            let c = self.current_char();
            if c == ' ' || c == '\t' {
                proof {
                    lemma_indent_width_snoc(self@.input, old(self)@.pos, self@.pos);
                }
                if c == '\t' {
                    count = count + 4;
                } else {
                    count = count + 1;
                }
                self.advance();
            } else {
                proof {
                    assert(self@ =~= with_pos(
                        old(self)@,
                        indent_char_end(old(self)@.input, old(self)@.pos),
                    ));
                }
                break;
            }
        }
        count
    }

    fn is_digit_char(c: char) -> (r: bool)
        ensures
            r == is_digit(c),
    {
        (c as u32) >= ('0' as u32) && (c as u32) <= ('9' as u32)
    }

    /// What an escaped character in a string literal denotes.
    fn translate_escape(c: char) -> (r: char)
        ensures
            r == escape_char(c),
    {
        match c {
            'n' => '\n',
            't' => '\t',
            'r' => '\r',
            _ => c,
        }
    }

    fn scan_number(&mut self) -> (t: Token)
        requires
            old(self).wf(),
            0 <= old(self)@.pos < old(self)@.input.len(),
            is_digit(old(self)@.input[old(self)@.pos]) || old(self)@.input[old(self)@.pos] == '.',
        ensures
            final(self).wf(),
            final(self)@ == with_pos(old(self)@, spec_scan_number(old(self)@.input, old(self)@.pos).1),
            t@ == spec_scan_number(old(self)@.input, old(self)@.pos).0,
            final(self)@.pos > old(self)@.pos,
    {
        let ghost s = self@.input;
        let ghost p0 = self@.pos;
        let start_line = self.line;
        let start_column = self.column;
        let mut lexeme = String::new();
        let mut is_float = false;
        if self.current_char() == '.' {
            is_float = true;
            push_char(&mut lexeme, '.');
            self.advance();
        }
        let ghost q = self@.pos;
        proof {
            assert(lexeme@ =~= s.subrange(p0, q));
        }
        loop
            invariant
                self.wf(),
                s == old(self)@.input,
                p0 == old(self)@.pos,
                self@.input == s,
                self@.stack == old(self)@.stack,
                self@.at_line_start == old(self)@.at_line_start,
                self@.pending_indent == old(self)@.pending_indent,
                q <= self@.pos,
                p0 <= q <= p0 + 1,
                digits_end(s, q) == digits_end(s, self@.pos),
                lexeme@ == s.subrange(p0, self@.pos),
            ensures
                self.wf(),
                self@ == with_pos(old(self)@, digits_end(s, q)),
                lexeme@ == s.subrange(p0, digits_end(s, q)),
            decreases self@.input.len() - self@.pos,
        {
            if self.is_at_end() {
                proof {
                    assert(self@ =~= with_pos(old(self)@, digits_end(s, q)));
                }
                break;
            }
            let c = self.current_char();
            if Self::is_digit_char(c) {
                push_char(&mut lexeme, c);
                self.advance();
                proof {
                    assert(lexeme@ =~= s.subrange(p0, self@.pos));
                }
            } else {
                proof {
                    assert(self@ =~= with_pos(old(self)@, digits_end(s, q)));
                }
                break;
            }
        }
        let ghost e1 = self@.pos;
        let mut second = false;
        if !self.is_at_end() {
            if self.current_char() == '.' {
                let next_is_dot = match self.peek() {
                    Some(d) => d == '.',
                    None => false,
                };
                if !next_is_dot {
                    second = true;
                    is_float = true;
                    push_char(&mut lexeme, '.');
                    self.advance();
                    proof {
                        assert(lexeme@ =~= s.subrange(p0, self@.pos));
                    }
                    let ghost q2 = self@.pos;
                    loop
                        invariant
                            self.wf(),
                            s == old(self)@.input,
                            p0 == old(self)@.pos,
                            self@.input == s,
                            self@.stack == old(self)@.stack,
                            self@.at_line_start == old(self)@.at_line_start,
                            self@.pending_indent == old(self)@.pending_indent,
                            q2 <= self@.pos,
                            p0 < q2,
                            digits_end(s, q2) == digits_end(s, self@.pos),
                            lexeme@ == s.subrange(p0, self@.pos),
                        ensures
                            self.wf(),
                            self@ == with_pos(old(self)@, digits_end(s, q2)),
                            lexeme@ == s.subrange(p0, digits_end(s, q2)),
                        decreases self@.input.len() - self@.pos,
                    {
                        if self.is_at_end() {
                            proof {
                                assert(self@ =~= with_pos(old(self)@, digits_end(s, q2)));
                            }
                            break;
                        }
                        let c = self.current_char();
                        if Self::is_digit_char(c) {
                            push_char(&mut lexeme, c);
                            self.advance();
                            proof {
                                assert(lexeme@ =~= s.subrange(p0, self@.pos));
                            }
                        } else {
                            proof {
                                assert(self@ =~= with_pos(old(self)@, digits_end(s, q2)));
                            }
                            break;
                        }
                    }
                }
            }
        }
        let ty = if is_float {
            TokenType::Float
        } else {
            TokenType::Integer
        };
        let t = Token::new(ty, lexeme, start_line, start_column);
        proof {
            lemma_digits_end_bounds(s, q);
            if s[p0] != '.' {
                assert(digits_end(s, p0) == digits_end(s, p0 + 1));
                lemma_digits_end_bounds(s, p0 + 1);
            }
            if second {
                lemma_digits_end_bounds(s, e1 + 1);
            }
            assert(t@ =~= spec_scan_number(s, p0).0);
            assert(self@ =~= with_pos(old(self)@, spec_scan_number(s, p0).1));
        }
        t
    }

    fn scan_identifier(&mut self) -> (t: Token)
        requires
            old(self).wf(),
            0 <= old(self)@.pos < old(self)@.input.len(),
            is_ident_char(old(self)@.input[old(self)@.pos]),
        ensures
            final(self).wf(),
            final(self)@ == with_pos(
                old(self)@,
                spec_scan_identifier(old(self)@.input, old(self)@.pos).1,
            ),
            t@ == spec_scan_identifier(old(self)@.input, old(self)@.pos).0,
            final(self)@.pos > old(self)@.pos,
    {
        let ghost s = self@.input;
        let ghost p0 = self@.pos;
        let start_line = self.line;
        let start_column = self.column;
        let mut lexeme = String::new();
        proof {
            assert(lexeme@ =~= s.subrange(p0, p0));
        }
        loop
            invariant
                self.wf(),
                s == old(self)@.input,
                p0 == old(self)@.pos,
                self@.input == s,
                self@.stack == old(self)@.stack,
                self@.at_line_start == old(self)@.at_line_start,
                self@.pending_indent == old(self)@.pending_indent,
                p0 <= self@.pos,
                ident_end(s, p0) == ident_end(s, self@.pos),
                lexeme@ == s.subrange(p0, self@.pos),
            ensures
                self.wf(),
                self@ == with_pos(old(self)@, ident_end(s, p0)),
                lexeme@ == s.subrange(p0, ident_end(s, p0)),
            decreases self@.input.len() - self@.pos,
        {
            if self.is_at_end() {
                proof {
                    assert(self@ =~= with_pos(old(self)@, ident_end(s, p0)));
                }
                break;
            }
            let c = self.current_char();
            if is_alphanumeric_char(c) || c == '_' {
                push_char(&mut lexeme, c);
                self.advance();
                proof {
                    assert(lexeme@ =~= s.subrange(p0, self@.pos));
                }
            } else {
                proof {
                    assert(self@ =~= with_pos(old(self)@, ident_end(s, p0)));
                }
                break;
            }
        }
        let ty = match crate::token::keyword_type(lexeme.as_str()) {
            Some(k) => k,
            None => TokenType::Identifier,
        };
        let t = Token::new(ty, lexeme, start_line, start_column);
        proof {
            lemma_ident_end_bounds(s, p0);
            assert(ident_end(s, p0) == ident_end(s, p0 + 1));
            lemma_ident_end_bounds(s, p0 + 1);
            assert(t@ =~= spec_scan_identifier(s, p0).0);
            assert(self@ =~= with_pos(old(self)@, spec_scan_identifier(s, p0).1));
        }
        t
    }

    fn scan_string(&mut self) -> (r: Result<Token, LexError>)
        requires
            old(self).wf(),
            0 <= old(self)@.pos < old(self)@.input.len(),
            old(self)@.input[old(self)@.pos] == '\'',
        ensures
            final(self).wf(),
            final(self)@.input == old(self)@.input,
            final(self)@.stack == old(self)@.stack,
            final(self)@.at_line_start == old(self)@.at_line_start,
            final(self)@.pending_indent == old(self)@.pending_indent,
            match r {
                Ok(t) => spec_scan_string(old(self)@.input, old(self)@.pos) == Ok::<_, LexErrModel>(
                    (t@, final(self)@.pos),
                ) && final(self)@.pos > old(self)@.pos,
                Err(e) => spec_scan_string(old(self)@.input, old(self)@.pos) == Err::<
                    (TokenModel, int),
                    _,
                >(e@),
            },
    {
        let ghost s = self@.input;
        let ghost p0 = self@.pos;
        let start_line = self.line;
        let start_column = self.column;
        self.advance();
        let mut lexeme = String::new();
        proof {
            assert(lexeme@ + string_body(s, p0 + 1)->Ok_0.0 =~= string_body(s, p0 + 1)->Ok_0.0);
            assert(string_body(s, p0 + 1) == string_prepend(lexeme@, string_body(s, self@.pos)));
        }
        loop
            invariant
                self.wf(),
                s == old(self)@.input,
                p0 == old(self)@.pos,
                self@.input == s,
                self@.stack == old(self)@.stack,
                self@.at_line_start == old(self)@.at_line_start,
                self@.pending_indent == old(self)@.pending_indent,
                p0 < self@.pos,
                string_body(s, p0 + 1) == string_prepend(lexeme@, string_body(s, self@.pos)),
            ensures
                self.wf(),
                self@.input == s,
                self@.stack == old(self)@.stack,
                self@.at_line_start == old(self)@.at_line_start,
                self@.pending_indent == old(self)@.pending_indent,
                p0 < self@.pos,
                string_body(s, p0 + 1) == string_prepend(lexeme@, string_body(s, self@.pos)),
                self@.pos >= s.len() || s[self@.pos] == '\'',
            decreases self@.input.len() - self@.pos,
        {
            if self.is_at_end() {
                break;
            }
            let c = self.current_char();
            if c == '\'' {
                break;
            }
            let ghost pos_before = self@.pos;
            let ghost lex_before = lexeme@;
            if c == '\\' {
                self.advance();
                if !self.is_at_end() {
                    let d = self.current_char();
                    let e = Self::translate_escape(d);
                    push_char(&mut lexeme, e);
                    self.advance();
                    proof {
                        assert(string_body(s, pos_before) == string_prepend(
                            seq![escape_char(s[pos_before + 1])],
                            string_body(s, self@.pos),
                        ));
                        assert(forall|t: Seq<char>|
                            lex_before + (seq![escape_char(s[pos_before + 1])] + t) =~= lexeme@
                                + t);
                        assert(string_prepend(lex_before, string_body(s, pos_before))
                            == string_prepend(lexeme@, string_body(s, self@.pos)));
                    }
                } else {
                    proof {
                        assert(string_body(s, pos_before) is Err);
                        assert(string_body(s, self@.pos) is Err);
                    }
                }
            } else {
                push_char(&mut lexeme, c);
                self.advance();
                proof {
                    assert(string_body(s, pos_before) == string_prepend(
                        seq![s[pos_before]],
                        string_body(s, self@.pos),
                    ));
                    assert(forall|t: Seq<char>|
                        lex_before + (seq![s[pos_before]] + t) =~= lexeme@ + t);
                    assert(string_prepend(lex_before, string_body(s, pos_before)) == string_prepend(
                        lexeme@,
                        string_body(s, self@.pos),
                    ));
                }
            }
        }
        if self.is_at_end() {
            proof {
                assert(string_body(s, self@.pos) is Err);
            }
            return Err(LexError::UnterminatedString { line: start_line, col: start_column });
        }
        self.advance();
        let t = Token::new(TokenType::String, lexeme, start_line, start_column);
        proof {
            assert(string_body(s, old(self)@.pos + 1) == Ok::<_, ()>((lexeme@, self@.pos)));
            assert(t@ =~= spec_scan_string(s, p0)->Ok_0.0);
        }
        Ok(t)
    }

    fn next_token(&mut self) -> (r: Result<Token, LexError>)
        requires
            old(self).wf(),
            0 <= old(self)@.pos < old(self)@.input.len(),
            !old(self)@.at_line_start,
        ensures
            final(self).wf(),
            final(self)@.input == old(self)@.input,
            final(self)@.stack == old(self)@.stack,
            final(self)@.pending_indent == old(self)@.pending_indent,
            match r {
                Ok(t) => spec_next_token(old(self)@.input, old(self)@.pos) == Ok::<_, LexErrModel>(
                    (t@, final(self)@.pos, final(self)@.at_line_start),
                ) && old(self)@.pos < final(self)@.pos <= old(self)@.input.len(),
                Err(e) => spec_next_token(old(self)@.input, old(self)@.pos) == Err::<
                    (TokenModel, int, bool),
                    _,
                >(e@),
            },
    {
        let ghost s = self@.input;
        let ghost p0 = self@.pos;
        let start_line = self.line;
        let start_column = self.column;
        let c = self.current_char();
        if c == '\n' {
            self.advance();
            self.at_line_start = true;
            Ok(Token::new(TokenType::Newline, String::from_str("\n"), start_line, start_column))
        } else if c == '+' {
            self.advance();
            Ok(Token::new(TokenType::Plus, String::from_str("+"), start_line, start_column))
        } else if c == '-' {
            self.advance();
            Ok(Token::new(TokenType::Minus, String::from_str("-"), start_line, start_column))
        } else if c == '*' {
            self.advance();
            let second = match self.current_char_if_not_end() {
                Some(d) => d == '*',
                None => false,
            };
            if second {
                self.advance();
                Ok(Token::new(TokenType::Power, String::from_str("**"), start_line, start_column))
            } else {
                Ok(Token::new(TokenType::Star, String::from_str("*"), start_line, start_column))
            }
        } else if c == '/' {
            self.advance();
            Ok(Token::new(TokenType::Slash, String::from_str("/"), start_line, start_column))
        } else if c == '%' {
            self.advance();
            Ok(Token::new(TokenType::Percent, String::from_str("%"), start_line, start_column))
        } else if c == '=' {
            self.advance();
            let second = match self.current_char_if_not_end() {
                Some(d) => d == '=',
                None => false,
            };
            if second {
                self.advance();
                Ok(
                    Token::new(
                        TokenType::EqualsEquals,
                        String::from_str("=="),
                        start_line,
                        start_column,
                    ),
                )
            } else {
                Ok(Token::new(TokenType::Equals, String::from_str("="), start_line, start_column))
            }
        } else if c == '!' {
            self.advance();
            let second = match self.current_char_if_not_end() {
                Some(d) => d == '=',
                None => false,
            };
            if second {
                self.advance();
                Ok(
                    Token::new(
                        TokenType::NotEquals,
                        String::from_str("!="),
                        start_line,
                        start_column,
                    ),
                )
            } else {
                Ok(Token::new(TokenType::Not, String::from_str("!"), start_line, start_column))
            }
        } else if c == '<' {
            self.advance();
            let second = match self.current_char_if_not_end() {
                Some(d) => d == '=',
                None => false,
            };
            if second {
                self.advance();
                Ok(
                    Token::new(
                        TokenType::LessEquals,
                        String::from_str("<="),
                        start_line,
                        start_column,
                    ),
                )
            } else {
                Ok(Token::new(TokenType::Less, String::from_str("<"), start_line, start_column))
            }
        } else if c == '>' {
            self.advance();
            let second = match self.current_char_if_not_end() {
                Some(d) => d == '=',
                None => false,
            };
            if second {
                self.advance();
                Ok(
                    Token::new(
                        TokenType::GreaterEquals,
                        String::from_str(">="),
                        start_line,
                        start_column,
                    ),
                )
            } else {
                Ok(Token::new(TokenType::Greater, String::from_str(">"), start_line, start_column))
            }
        } else if c == '~' {
            self.advance();
            Ok(Token::new(TokenType::Tilde, String::from_str("~"), start_line, start_column))
        } else if c == '&' {
            self.advance();
            Ok(Token::new(TokenType::Ampersand, String::from_str("&"), start_line, start_column))
        } else if c == '|' {
            self.advance();
            Ok(Token::new(TokenType::Pipe, String::from_str("|"), start_line, start_column))
        } else if c == '.' {
            let two_dots = match self.peek() {
                Some(d) => d == '.',
                None => false,
            };
            if two_dots {
                self.advance();
                self.advance();
                Ok(Token::new(TokenType::DotDot, String::from_str(".."), start_line, start_column))
            } else {
                let digit_next = match self.peek() {
                    Some(d) => Self::is_digit_char(d),
                    None => false,
                };
                if digit_next {
                    Ok(self.scan_number())
                } else {
                    self.advance();
                    Ok(Token::new(TokenType::Dot, String::from_str("."), start_line, start_column))
                }
            }
        } else if c == '@' {
            self.advance();
            Ok(Token::new(TokenType::At, String::from_str("@"), start_line, start_column))
        } else if c == '(' {
            self.advance();
            Ok(Token::new(TokenType::Lparen, String::from_str("("), start_line, start_column))
        } else if c == ')' {
            self.advance();
            Ok(Token::new(TokenType::Rparen, String::from_str(")"), start_line, start_column))
        } else if c == '{' {
            self.advance();
            Ok(Token::new(TokenType::Lbrace, String::from_str("{"), start_line, start_column))
        } else if c == '}' {
            self.advance();
            Ok(Token::new(TokenType::Rbrace, String::from_str("}"), start_line, start_column))
        } else if c == '[' {
            self.advance();
            Ok(Token::new(TokenType::Lsquare, String::from_str("["), start_line, start_column))
        } else if c == ']' {
            self.advance();
            Ok(Token::new(TokenType::Rsquare, String::from_str("]"), start_line, start_column))
        } else if c == ',' {
            self.advance();
            Ok(Token::new(TokenType::Comma, String::from_str(","), start_line, start_column))
        } else if c == ':' {
            self.advance();
            Ok(Token::new(TokenType::Colon, String::from_str(":"), start_line, start_column))
        } else if c == '\'' {
            match self.scan_string() {
                Ok(t) => Ok(t),
                Err(e) => Err(e),
            }
        } else if Self::is_digit_char(c) {
            Ok(self.scan_number())
        } else if is_alphabetic_char(c) || c == '_' {
            Ok(self.scan_identifier())
        } else {
            Err(LexError::UnexpectedCharacter { ch: c, line: start_line, col: start_column })
        }
    }

    /// Tokenizes the whole text: exactly the token sequence of
    /// [`spec_tokenize`] on this scan's input, or its first lexical failure.
    /// On success every open indentation level has been unwound.
    pub fn tokenize(&mut self) -> (r: Result<Vec<Token>, LexError>)
        requires
            old(self).wf(),
        ensures
            match r {
                Ok(ts) => spec_lex_from(old(self)@) == Ok::<_, LexErrModel>(tokens_view(ts@))
                    && final(self)@.stack == seq![0usize],
                Err(e) => spec_lex_from(old(self)@) == Err::<Seq<TokenModel>, _>(e@),
            },
    {
        let ghost st0 = self@;
        let ghost s = self@.input;
        let mut tokens: Vec<Token> = Vec::new();
        proof {
            assert(tokens_view(tokens@) =~= Seq::<TokenModel>::empty());
            assert(Seq::<TokenModel>::empty() + spec_lex_from(self@)->Ok_0 =~= spec_lex_from(
                self@,
            )->Ok_0);
        }
        loop
            invariant
                self.wf(),
                st0 == old(self)@,
                s == st0.input,
                self@.input == s,
                prepend_tokens(tokens_view(tokens@), spec_lex_from(self@)) == spec_lex_from(st0),
            ensures
                self.wf(),
                self@.input == s,
                self@.pos == s.len(),
                prepend_tokens(tokens_view(tokens@), spec_lex_from(self@)) == spec_lex_from(st0),
            decreases s.len() - self@.pos,
        {
            if self.at_line_start && !self.is_at_end() {
                let ghost st_top = self@;
                let c = self.current_char();
                if c == '\n' {
                    self.advance();
                    proof {
                        assert(spec_lex_from(st_top) == spec_lex_from(self@));
                    }
                    continue;
                }
                let is_comment = c == '/' && (match self.peek() {
                    Some(d) => d == '/',
                    None => false,
                });
                if is_comment {
                    self.skip_comment();
                    proof {
                        lemma_line_end_bounds(s, st_top.pos + 1);
                        assert(line_end(s, st_top.pos) == line_end(s, st_top.pos + 1));
                        assert(self@ =~= with_pos(
                            st_top,
                            vstd::math::max(st_top.pos + 1, line_end(s, st_top.pos)),
                        ));
                        assert(spec_lex_from(st_top) == spec_lex_from(self@));
                    }
                    continue;
                }
                let level = self.count_indentation();
                proof {
                    lemma_indent_char_end_bounds(s, st_top.pos);
                    lemma_indent_width_bounds(s, st_top.pos, self@.pos);
                }
                let ghost p1 = self@.pos;
                let ghost line1 = spec_line(s, p1);
                let ghost col1 = spec_col(s, p1);
                let ghost tokens_mid = tokens@;
                let ghost stack_mid = self@.stack;
                let current_indent = self.indent_stack[self.indent_stack.len() - 1];
                if self.pending_indent && level > current_indent {
                    self.indent_stack.push(level);
                    tokens.push(
                        Token::new(TokenType::Indent, String::new(), self.line, self.column),
                    );
                    proof {
                        crate::token::lemma_tokens_view_push(
                            tokens_mid,
                            tokens@[tokens@.len() - 1],
                        );
                        assert(tokens_view(tokens@) =~= tokens_view(tokens_mid) + seq![
                            TokenModel {
                                ty: TokenType::Indent,
                                text: Seq::empty(),
                                line: line1,
                                col: col1,
                            },
                        ]);
                    }
                } else if level < current_indent {
                    loop
                        invariant
                            self.wf(),
                            s == st0.input,
                            self@.input == s,
                            self@.pos == p1,
                            self@.at_line_start == st_top.at_line_start,
                            self@.pending_indent == st_top.pending_indent,
                            line1 == spec_line(s, p1),
                            col1 == spec_col(s, p1),
                            dedent_tokens(stack_mid, level, line1, col1).1 == dedent_tokens(
                                self@.stack,
                                level,
                                line1,
                                col1,
                            ).1,
                            tokens_view(tokens_mid) + dedent_tokens(
                                stack_mid,
                                level,
                                line1,
                                col1,
                            ).0 == tokens_view(tokens@) + dedent_tokens(
                                self@.stack,
                                level,
                                line1,
                                col1,
                            ).0,
                        ensures
                            self.wf(),
                            self@.input == s,
                            self@.pos == p1,
                            self@.at_line_start == st_top.at_line_start,
                            self@.pending_indent == st_top.pending_indent,
                            self@.stack == dedent_tokens(stack_mid, level, line1, col1).1,
                            tokens_view(tokens@) == tokens_view(tokens_mid) + dedent_tokens(
                                stack_mid,
                                level,
                                line1,
                                col1,
                            ).0,
                        decreases self@.stack.len(),
                    {
                        let top = self.indent_stack[self.indent_stack.len() - 1];
                        if top <= level {
                            proof {
                                assert(dedent_tokens(self@.stack, level, line1, col1) == (
                                    Seq::<TokenModel>::empty(),
                                    self@.stack,
                                ));
                                assert(tokens_view(tokens@) + Seq::<TokenModel>::empty()
                                    =~= tokens_view(tokens@));
                            }
                            break;
                        }
                        proof {
                            assert(self@.stack.len() >= 2);
                        }
                        let ghost stack_prev = self@.stack;
                        let ghost tokens_prev = tokens@;
                        self.indent_stack.pop();
                        tokens.push(
                            Token::new(TokenType::Dedent, String::new(), self.line, self.column),
                        );
                        proof {
                            assert(self@.stack =~= stack_prev.drop_last());
                            let d = TokenModel {
                                ty: TokenType::Dedent,
                                text: Seq::empty(),
                                line: line1,
                                col: col1,
                            };
                            assert(dedent_tokens(stack_prev, level, line1, col1).0 =~= seq![d]
                                + dedent_tokens(self@.stack, level, line1, col1).0);
                            crate::token::lemma_tokens_view_push(
                                tokens_prev,
                                tokens@[tokens@.len() - 1],
                            );
                            assert(tokens_view(tokens_prev) + (seq![d] + dedent_tokens(
                                self@.stack,
                                level,
                                line1,
                                col1,
                            ).0) =~= tokens_view(tokens@) + dedent_tokens(
                                self@.stack,
                                level,
                                line1,
                                col1,
                            ).0);
                        }
                    }
                } else {
                    proof {
                        assert(tokens_view(tokens@) =~= tokens_view(tokens_mid)
                            + Seq::<TokenModel>::empty());
                    }
                }
                self.pending_indent = false;
                self.at_line_start = false;
                proof {
                    let w = indent_width(s, st_top.pos, p1);
                    let step = spec_indent_step(
                        st_top.stack,
                        st_top.pending_indent,
                        w,
                        line1,
                        col1,
                    );
                    assert(level as int == w);
                    assert(stack_mid == st_top.stack);
                    assert(tokens_view(tokens@) == tokens_view(tokens_mid) + step.0);
                    assert(self@.stack == step.1);
                    assert(p1 == vstd::math::max(st_top.pos, indent_char_end(s, st_top.pos)));
                    assert(spec_lex_from(st_top) == prepend_tokens(step.0, spec_lex_line(self@)));
                    assert(spec_lex_from(self@) == spec_lex_line(self@));
                    lemma_prepend_assoc(tokens_view(tokens_mid), step.0, spec_lex_from(self@));
                }
            }
            if self.is_at_end() {
                break;
            }
            let ghost st_b = self@;
            let ghost tokens_b = tokens@;
            self.skip_whitespace_inline();
            proof {
                lemma_ws_end_bounds(s, st_b.pos);
            }
            let ghost p2 = self@.pos;
            if self.is_at_end() {
                proof {
                    assert(spec_lex_from(st_b) == spec_lex_line(st_b));
                    assert(spec_lex_line(st_b) == Ok::<_, LexErrModel>(
                        final_dedents(st_b.stack, spec_line(s, p2), spec_col(s, p2)).push(
                            tok_at(s, p2, TokenType::Eof, Seq::empty()),
                        ),
                    ));
                    assert(spec_lex_from(self@) == spec_lex_line(self@));
                    assert(spec_lex_line(self@) == spec_lex_line(st_b));
                }
                break;
            }
            let c2 = self.current_char();
            let is_comment2 = c2 == '/' && (match self.peek() {
                Some(d) => d == '/',
                None => false,
            });
            if is_comment2 {
                self.skip_comment();
                proof {
                    lemma_line_end_bounds(s, p2 + 1);
                    assert(line_end(s, p2) == line_end(s, p2 + 1));
                    assert(spec_lex_from(st_b) == spec_lex_line(st_b));
                    assert(spec_lex_line(st_b) == spec_lex_line(with_pos(
                        st_b,
                        vstd::math::max(st_b.pos + 1, line_end(s, p2)),
                    )));
                    assert(self@ =~= with_pos(st_b, vstd::math::max(st_b.pos + 1, line_end(s, p2))));
                    assert(spec_lex_from(self@) == spec_lex_line(self@));
                }
                continue;
            }
            match self.next_token() {
                Ok(t) => {
                    if t.token_type == TokenType::Colon {
                        self.pending_indent = true;
                    }
                    let ghost tm = t@;
                    let ghost st2 = self@;
                    tokens.push(t);
                    proof {
                        assert(spec_next_token(s, p2) == Ok::<_, LexErrModel>((
                            tm,
                            st2.pos,
                            st2.at_line_start,
                        )));
                        assert(st2 =~= (LexState {
                            input: s,
                            pos: vstd::math::max(st_b.pos + 1, st2.pos),
                            stack: st_b.stack,
                            at_line_start: st2.at_line_start,
                            pending_indent: st_b.pending_indent || tm.ty == TokenType::Colon,
                        }));
                        assert(spec_lex_from(st_b) == spec_lex_line(st_b));
                        assert(spec_lex_line(st_b) == prepend_tokens(
                            seq![tm],
                            spec_lex_from(st2),
                        ));
                        lemma_prepend_assoc(tokens_view(tokens_b), seq![tm], spec_lex_from(st2));
                        crate::token::lemma_tokens_view_push(
                            tokens_b,
                            tokens@[tokens@.len() - 1],
                        );
                        assert(tokens_view(tokens_b) + seq![tm] =~= tokens_view(tokens@));
                    }
                },
                Err(e) => {
                    proof {
                        assert(spec_lex_from(st_b) == spec_lex_line(st_b));
                        assert(spec_lex_line(st_b) == Err::<Seq<TokenModel>, _>(e@));
                        assert(spec_lex_from(st0) == Err::<Seq<TokenModel>, _>(e@));
                    }
                    return Err(e);
                },
            }
        }
        let ghost st_exit = self@;
        let ghost tokens_exit = tokens@;
        let ghost line_e = spec_line(s, st_exit.pos);
        let ghost col_e = spec_col(s, st_exit.pos);
        loop
            invariant
                self.wf(),
                s == st0.input,
                self@.input == s,
                self@.pos == st_exit.pos,
                line_e == spec_line(s, st_exit.pos),
                col_e == spec_col(s, st_exit.pos),
                tokens_view(tokens_exit) + final_dedents(st_exit.stack, line_e, col_e)
                    == tokens_view(tokens@) + final_dedents(self@.stack, line_e, col_e),
            ensures
                self.wf(),
                self@.input == s,
                self@.pos == st_exit.pos,
                self@.stack.len() == 1,
                tokens_view(tokens@) == tokens_view(tokens_exit) + final_dedents(
                    st_exit.stack,
                    line_e,
                    col_e,
                ),
            decreases self@.stack.len(),
        {
            if self.indent_stack.len() > 1 {
                let ghost stack_prev = self@.stack;
                let ghost tokens_prev = tokens@;
                self.indent_stack.pop();
                tokens.push(Token::new(TokenType::Dedent, String::new(), self.line, self.column));
                proof {
                    assert(self@.stack =~= stack_prev.drop_last());
                    let d = TokenModel {
                        ty: TokenType::Dedent,
                        text: Seq::empty(),
                        line: line_e,
                        col: col_e,
                    };
                    assert(final_dedents(stack_prev, line_e, col_e) =~= seq![d] + final_dedents(
                        self@.stack,
                        line_e,
                        col_e,
                    ));
                    crate::token::lemma_tokens_view_push(tokens_prev, tokens@[tokens@.len() - 1]);
                    assert(tokens_view(tokens_prev) + (seq![d] + final_dedents(
                        self@.stack,
                        line_e,
                        col_e,
                    )) =~= tokens_view(tokens@) + final_dedents(self@.stack, line_e, col_e));
                }
            } else {
                proof {
                    assert(final_dedents(self@.stack, line_e, col_e) =~= Seq::<TokenModel>::empty());
                    assert(tokens_view(tokens@) + Seq::<TokenModel>::empty() =~= tokens_view(
                        tokens@,
                    ));
                }
                break;
            }
        }
        let ghost tokens_drained = tokens@;
        tokens.push(Token::new(TokenType::Eof, String::new(), self.line, self.column));
        proof {
            crate::token::lemma_tokens_view_push(tokens_drained, tokens@[tokens@.len() - 1]);
            assert(spec_lex_from(st_exit) == spec_lex_line(st_exit));
            assert(spec_lex_line(st_exit) == Ok::<_, LexErrModel>(
                final_dedents(st_exit.stack, line_e, col_e).push(
                    tok_at(s, st_exit.pos, TokenType::Eof, Seq::empty()),
                ),
            ));
            assert(tokens_view(tokens@) =~= tokens_view(tokens_exit) + final_dedents(
                st_exit.stack,
                line_e,
                col_e,
            ).push(tok_at(s, st_exit.pos, TokenType::Eof, Seq::empty())));
            assert(self@.stack =~= seq![0usize]);
        }
        Ok(tokens)
    }
}

/// How many tokens of a category a sequence holds.
pub open spec fn count_ty(ts: Seq<TokenModel>, ty: TokenType) -> int
    decreases ts.len(),
{
    if ts.len() == 0 {
        0
    } else {
        (if ts[0].ty == ty {
            1int
        } else {
            0int
        }) + count_ty(ts.drop_first(), ty)
    }
}

pub proof fn lemma_count_ty_singleton(t: TokenModel, ty: TokenType)
    ensures
        count_ty(seq![t], ty) == (if t.ty == ty {
            1int
        } else {
            0int
        }),
{
    assert(seq![t].drop_first() =~= Seq::<TokenModel>::empty());
    assert(count_ty(Seq::<TokenModel>::empty(), ty) == 0);
    assert(seq![t][0] == t);
}

pub proof fn lemma_count_ty_concat(a: Seq<TokenModel>, b: Seq<TokenModel>, ty: TokenType)
    ensures
        count_ty(a + b, ty) == count_ty(a, ty) + count_ty(b, ty),
    decreases a.len(),
{
    if a.len() == 0 {
        assert(a + b =~= b);
    } else {
        assert((a + b).drop_first() =~= a.drop_first() + b);
        lemma_count_ty_concat(a.drop_first(), b, ty);
    }
}

pub proof fn lemma_count_ty_push(a: Seq<TokenModel>, t: TokenModel, ty: TokenType)
    ensures
        count_ty(a.push(t), ty) == count_ty(a, ty) + (if t.ty == ty {
            1int
        } else {
            0int
        }),
{
    assert(a.push(t) =~= a + seq![t]);
    lemma_count_ty_concat(a, seq![t], ty);
    lemma_count_ty_singleton(t, ty);
}

/// The tokens of `dedent_tokens` are all `DEDENT`, one per popped level,
/// and the remaining stack still has its base level.
pub proof fn lemma_dedent_tokens(stack: Seq<usize>, level: usize, line: int, col: int)
    requires
        stack.len() >= 1,
        stack[0] == 0,
    ensures
        ({
            let (ts, rest) = dedent_tokens(stack, level, line, col);
            &&& rest.len() >= 1
            &&& rest[0] == 0
            &&& ts.len() == stack.len() - rest.len()
            &&& count_ty(ts, TokenType::Dedent) == ts.len()
            &&& count_ty(ts, TokenType::Indent) == 0
            &&& count_ty(ts, TokenType::Eof) == 0
        }),
    decreases stack.len(),
{
    if stack.len() == 0 || stack.last() <= level {
    } else {
        assert(stack.len() >= 2) by {
            if stack.len() == 1 {
                assert(stack.last() == stack[0]);
            }
        }
        lemma_dedent_tokens(stack.drop_last(), level, line, col);
        let (ts, rest) = dedent_tokens(stack.drop_last(), level, line, col);
        let d = TokenModel { ty: TokenType::Dedent, text: Seq::empty(), line, col };
        lemma_count_ty_concat(seq![d], ts, TokenType::Dedent);
        lemma_count_ty_concat(seq![d], ts, TokenType::Indent);
        lemma_count_ty_concat(seq![d], ts, TokenType::Eof);
        lemma_count_ty_singleton(d, TokenType::Dedent);
        lemma_count_ty_singleton(d, TokenType::Indent);
        lemma_count_ty_singleton(d, TokenType::Eof);
    }
}

/// The tokens of `final_dedents` are all `DEDENT`, one per open level.
pub proof fn lemma_final_dedents(stack: Seq<usize>, line: int, col: int)
    requires
        stack.len() >= 1,
    ensures
        final_dedents(stack, line, col).len() == stack.len() - 1,
        count_ty(final_dedents(stack, line, col), TokenType::Dedent) == stack.len() - 1,
        count_ty(final_dedents(stack, line, col), TokenType::Indent) == 0,
        count_ty(final_dedents(stack, line, col), TokenType::Eof) == 0,
    decreases stack.len(),
{
    if stack.len() <= 1 {
    } else {
        lemma_final_dedents(stack.drop_last(), line, col);
        let ts = final_dedents(stack.drop_last(), line, col);
        let d = TokenModel { ty: TokenType::Dedent, text: Seq::empty(), line, col };
        lemma_count_ty_concat(seq![d], ts, TokenType::Dedent);
        lemma_count_ty_concat(seq![d], ts, TokenType::Indent);
        lemma_count_ty_concat(seq![d], ts, TokenType::Eof);
        lemma_count_ty_singleton(d, TokenType::Dedent);
        lemma_count_ty_singleton(d, TokenType::Indent);
        lemma_count_ty_singleton(d, TokenType::Eof);
    }
}

/// A scanned token is never one of the structural categories the layout
/// rules synthesize.
pub proof fn lemma_next_token_ty(s: Seq<char>, p: int)
    ensures
        spec_next_token(s, p) matches Ok((t, e, nl)) ==> t.ty != TokenType::Indent && t.ty
            != TokenType::Dedent && t.ty != TokenType::Eof,
{
}

/// The balance and termination laws of one whole scan, from any state whose
/// stack has its base level: every success ends in exactly one `EOF`, and
/// the `INDENT`s plus the already-open levels match the `DEDENT`s.
pub proof fn lemma_lex_from_laws(st: LexState)
    requires
        st.stack.len() >= 1,
        st.stack[0] == 0,
    ensures
        spec_lex_from(st) matches Ok(ts) ==> {
            &&& count_ty(ts, TokenType::Indent) + st.stack.len() - 1 == count_ty(
                ts,
                TokenType::Dedent,
            )
            &&& count_ty(ts, TokenType::Eof) == 1
            &&& ts.len() >= 1
            &&& ts.last().ty == TokenType::Eof
        },
    decreases vstd::math::max(st.input.len() - st.pos, 0), 1int,
{
    let s = st.input;
    if st.at_line_start && 0 <= st.pos < s.len() {
        if s[st.pos] == '\n' {
            lemma_lex_from_laws(with_pos(st, st.pos + 1));
        } else if s[st.pos] == '/' && st.pos + 1 < s.len() && s[st.pos + 1] == '/' {
            lemma_lex_from_laws(with_pos(st, vstd::math::max(st.pos + 1, line_end(s, st.pos))));
        } else {
            let p1 = vstd::math::max(st.pos, indent_char_end(s, st.pos));
            let width = indent_width(s, st.pos, p1);
            let (emitted, stack2) = spec_indent_step(
                st.stack,
                st.pending_indent,
                width,
                spec_line(s, p1),
                spec_col(s, p1),
            );
            if st.pending_indent && width > st.stack.last() {
                let i = TokenModel {
                    ty: TokenType::Indent,
                    text: Seq::empty(),
                    line: spec_line(s, p1),
                    col: spec_col(s, p1),
                };
                lemma_count_ty_singleton(i, TokenType::Indent);
                lemma_count_ty_singleton(i, TokenType::Dedent);
                lemma_count_ty_singleton(i, TokenType::Eof);
            } else if width < st.stack.last() {
                lemma_dedent_tokens(st.stack, width as usize, spec_line(s, p1), spec_col(s, p1));
            }
            let st1 = LexState {
                input: s,
                pos: p1,
                stack: stack2,
                at_line_start: false,
                pending_indent: false,
            };
            lemma_lex_line_laws(st1);
            if let Ok(rest) = spec_lex_line(st1) {
                lemma_count_ty_concat(emitted, rest, TokenType::Indent);
                lemma_count_ty_concat(emitted, rest, TokenType::Dedent);
                lemma_count_ty_concat(emitted, rest, TokenType::Eof);
                assert((emitted + rest).last() == rest.last());
            }
        }
    } else {
        lemma_lex_line_laws(st);
    }
}

/// The same laws, from the top of a line's remainder.
pub proof fn lemma_lex_line_laws(st: LexState)
    requires
        st.stack.len() >= 1,
        st.stack[0] == 0,
    ensures
        spec_lex_line(st) matches Ok(ts) ==> {
            &&& count_ty(ts, TokenType::Indent) + st.stack.len() - 1 == count_ty(
                ts,
                TokenType::Dedent,
            )
            &&& count_ty(ts, TokenType::Eof) == 1
            &&& ts.len() >= 1
            &&& ts.last().ty == TokenType::Eof
        },
    decreases vstd::math::max(st.input.len() - st.pos, 0), 0int,
{
    let s = st.input;
    if st.pos >= s.len() || st.pos < 0 {
        lemma_final_dedents(st.stack, spec_line(s, st.pos), spec_col(s, st.pos));
        let fd = final_dedents(st.stack, spec_line(s, st.pos), spec_col(s, st.pos));
        lemma_count_ty_push(fd, tok_at(s, st.pos, TokenType::Eof, Seq::empty()), TokenType::Indent);
        lemma_count_ty_push(fd, tok_at(s, st.pos, TokenType::Eof, Seq::empty()), TokenType::Dedent);
        lemma_count_ty_push(fd, tok_at(s, st.pos, TokenType::Eof, Seq::empty()), TokenType::Eof);
    } else {
        let p2 = vstd::math::max(st.pos, ws_end(s, st.pos));
        if p2 >= s.len() {
            lemma_final_dedents(st.stack, spec_line(s, p2), spec_col(s, p2));
            let fd = final_dedents(st.stack, spec_line(s, p2), spec_col(s, p2));
            lemma_count_ty_push(fd, tok_at(s, p2, TokenType::Eof, Seq::empty()), TokenType::Indent);
            lemma_count_ty_push(fd, tok_at(s, p2, TokenType::Eof, Seq::empty()), TokenType::Dedent);
            lemma_count_ty_push(fd, tok_at(s, p2, TokenType::Eof, Seq::empty()), TokenType::Eof);
        } else if s[p2] == '/' && p2 + 1 < s.len() && s[p2 + 1] == '/' {
            lemma_lex_line_laws(with_pos(st, vstd::math::max(st.pos + 1, line_end(s, p2))));
        } else {
            match spec_next_token(s, p2) {
                Ok((t, e, nl)) => {
                    lemma_next_token_ty(s, p2);
                    let st2 = LexState {
                        input: s,
                        pos: vstd::math::max(st.pos + 1, e),
                        stack: st.stack,
                        at_line_start: nl,
                        pending_indent: st.pending_indent || t.ty == TokenType::Colon,
                    };
                    lemma_lex_from_laws(st2);
                    if let Ok(rest) = spec_lex_from(st2) {
                        lemma_count_ty_concat(seq![t], rest, TokenType::Indent);
                        lemma_count_ty_concat(seq![t], rest, TokenType::Dedent);
                        lemma_count_ty_concat(seq![t], rest, TokenType::Eof);
                        lemma_count_ty_singleton(t, TokenType::Indent);
                        lemma_count_ty_singleton(t, TokenType::Dedent);
                        lemma_count_ty_singleton(t, TokenType::Eof);
                        assert((seq![t] + rest).last() == rest.last());
                    }
                },
                Err(_) => {},
            }
        }
    }
}

/// Law: tokenization is deterministic — two scans of the same text yield
/// the same outcome, token for token.
pub proof fn lemma_tokenize_deterministic(
    input: Seq<char>,
    r1: Result<Seq<TokenModel>, LexErrModel>,
    r2: Result<Seq<TokenModel>, LexErrModel>,
)
    requires
        r1 == spec_tokenize(input),
        r2 == spec_tokenize(input),
    ensures
        r1 == r2,
{
}

/// Law: on every text that tokenizes, the number of `INDENT` tokens equals
/// the number of `DEDENT` tokens.
pub proof fn lemma_tokenize_balanced(input: Seq<char>)
    ensures
        spec_tokenize(input) matches Ok(ts) ==> count_ty(ts, TokenType::Indent) == count_ty(
            ts,
            TokenType::Dedent,
        ),
{
    lemma_lex_from_laws(init_state(input));
}

/// Law: every token sequence holds exactly one `EOF`, and it is the last
/// token.
pub proof fn lemma_tokenize_eof(input: Seq<char>)
    ensures
        spec_tokenize(input) matches Ok(ts) ==> count_ty(ts, TokenType::Eof) == 1 && ts.len() >= 1
            && ts.last().ty == TokenType::Eof,
{
    lemma_lex_from_laws(init_state(input));
}

/// Prepending tokens distributes over further prepending.
pub proof fn lemma_prepend_assoc(
    a: Seq<TokenModel>,
    b: Seq<TokenModel>,
    r: Result<Seq<TokenModel>, LexErrModel>,
)
    ensures
        prepend_tokens(a, prepend_tokens(b, r)) == prepend_tokens(a + b, r),
{
    match r {
        Ok(ts) => {
            assert(a + (b + ts) =~= (a + b) + ts);
        },
        Err(_) => {},
    }
}


} // verus!

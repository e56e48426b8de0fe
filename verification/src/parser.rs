//! The parser: recursive descent over the token sequence for statement
//! forms, and Pratt (precedence-climbing) parsing for expressions, building
//! one `CompilationUnit` tree.
//!
//! The meaning of parsing is given by [`spec_parse`], a recursive function
//! over the token models; [`Parser::parse`] is proved to return exactly its
//! value. Positions that recursive calls resume at are clamped forward with
//! `bump` so the recursion is visibly bounded; the clamps are inert, since
//! every parse step consumes at least one token.

use crate::ast::asts_view;
use crate::ast::AstModel;
use crate::ast::AstNode;
use crate::ast::NodeType;
use crate::token::Token;
use crate::token::TokenModel;
use crate::token::TokenType;
use crate::token::tokens_view;
use vstd::prelude::*;

verus! {

// The named binding-strength levels, from loosest to tightest.
pub const PREC_LOWEST: u32 = 0;

pub const PREC_ASSIGNMENT: u32 = 1;

pub const PREC_PIPE: u32 = 2;

pub const PREC_COMMA: u32 = 3;

pub const PREC_TERNARY: u32 = 4;

pub const PREC_OR: u32 = 5;

pub const PREC_AND: u32 = 6;

pub const PREC_BITWISE_AND: u32 = 7;

pub const PREC_EQUALITY: u32 = 8;

pub const PREC_COMPARISON: u32 = 9;

pub const PREC_RANGE: u32 = 10;

pub const PREC_TERM: u32 = 11;

pub const PREC_FACTOR: u32 = 12;

pub const PREC_EXPONENT: u32 = 13;

pub const PREC_UNARY: u32 = 14;

pub const PREC_APPLICATION: u32 = 15;

pub const PREC_CALL: u32 = 16;

/// A parse failure; the position is 1-based and names the token at which the
/// grammar could not continue.
#[derive(Clone, Copy, Debug, PartialEq, Eq, Structural)]
pub enum ParseError {
    UnexpectedPrefixToken { found: TokenType, line: usize, col: usize },
    ExpectedToken { expected: TokenType, found: TokenType, line: usize, col: usize },
}

/// Mathematical model of a parse failure.
pub enum ParseErrModel {
    UnexpectedPrefixToken { found: TokenType, line: int, col: int },
    ExpectedToken { expected: TokenType, found: TokenType, line: int, col: int },
}

impl View for ParseError {
    type V = ParseErrModel;

    open spec fn view(&self) -> ParseErrModel {
        match *self {
            ParseError::UnexpectedPrefixToken { found, line, col } => {
                ParseErrModel::UnexpectedPrefixToken { found, line: line as int, col: col as int }
            },
            ParseError::ExpectedToken { expected, found, line, col } => {
                ParseErrModel::ExpectedToken {
                    expected,
                    found,
                    line: line as int,
                    col: col as int,
                }
            },
        }
    }
}

/// A node model.
pub open spec fn node(kind: NodeType, token: Option<TokenModel>, children: Seq<AstModel>) -> AstModel {
    AstModel { kind, token, children }
}

/// Whether the cursor is exhausted: past the end, or at the `EOF` token.
pub open spec fn at_end(toks: Seq<TokenModel>, pos: int) -> bool {
    pos >= toks.len() || pos < 0 || toks[pos].ty == TokenType::Eof
}

/// Whether the current token exists and has the given category.
pub open spec fn spec_check(toks: Seq<TokenModel>, pos: int, ty: TokenType) -> bool {
    !at_end(toks, pos) && toks[pos].ty == ty
}

/// A token may begin a prefix expression.
pub open spec fn can_start(ty: TokenType) -> bool {
    ||| ty == TokenType::Integer
    ||| ty == TokenType::Float
    ||| ty == TokenType::String
    ||| ty == TokenType::Identifier
    ||| ty == TokenType::Lparen
    ||| ty == TokenType::Lbrace
    ||| ty == TokenType::Lsquare
    ||| ty == TokenType::Minus
    ||| ty == TokenType::Not
    ||| ty == TokenType::Tilde
    ||| ty == TokenType::At
}

/// The binding strength of a token met after a complete expression: the
/// infix table, then juxtaposition (application) for any token that could
/// begin an expression, else the loosest level, which never extends an
/// expression.
pub open spec fn spec_token_prec(ty: TokenType) -> u32 {
    if ty == TokenType::Equals {
        PREC_ASSIGNMENT
    } else if ty == TokenType::Pipe {
        PREC_PIPE
    } else if ty == TokenType::Comma {
        PREC_COMMA
    } else if ty == TokenType::If {
        PREC_TERNARY
    } else if ty == TokenType::Or {
        PREC_OR
    } else if ty == TokenType::And {
        PREC_AND
    } else if ty == TokenType::Ampersand {
        PREC_BITWISE_AND
    } else if ty == TokenType::EqualsEquals || ty == TokenType::NotEquals {
        PREC_EQUALITY
    } else if ty == TokenType::Less || ty == TokenType::LessEquals || ty == TokenType::Greater
        || ty == TokenType::GreaterEquals {
        PREC_COMPARISON
    } else if ty == TokenType::DotDot {
        PREC_RANGE
    } else if ty == TokenType::Plus || ty == TokenType::Minus {
        PREC_TERM
    } else if ty == TokenType::Star || ty == TokenType::Slash || ty == TokenType::Percent {
        PREC_FACTOR
    } else if ty == TokenType::Power {
        PREC_EXPONENT
    } else if ty == TokenType::Dot || ty == TokenType::Lparen {
        PREC_CALL
    } else if can_start(ty) {
        PREC_APPLICATION
    } else {
        PREC_LOWEST
    }
}

/// The binary operators that build a left-associative `BinaryOp` node at
/// their own level.
pub open spec fn is_binary_op(ty: TokenType) -> bool {
    ||| ty == TokenType::Plus
    ||| ty == TokenType::Minus
    ||| ty == TokenType::Star
    ||| ty == TokenType::Slash
    ||| ty == TokenType::Percent
    ||| ty == TokenType::EqualsEquals
    ||| ty == TokenType::NotEquals
    ||| ty == TokenType::Less
    ||| ty == TokenType::LessEquals
    ||| ty == TokenType::Greater
    ||| ty == TokenType::GreaterEquals
    ||| ty == TokenType::And
    ||| ty == TokenType::Or
    ||| ty == TokenType::Ampersand
    ||| ty == TokenType::DotDot
    ||| ty == TokenType::Comma
}

/// The forward clamp for recursion positions.
pub open spec fn bump(pos: int, d: int) -> int {
    vstd::math::max(pos + 1, d)
}

/// The required token at the cursor: the token and the position after it,
/// or the failure naming what was expected and what stood there.
pub open spec fn spec_expect(toks: Seq<TokenModel>, pos: int, ty: TokenType) -> Result<
    (TokenModel, int),
    ParseErrModel,
> {
    if spec_check(toks, pos, ty) {
        Ok((toks[pos], pos + 1))
    } else {
        Err(
            ParseErrModel::ExpectedToken {
                expected: ty,
                found: toks[pos].ty,
                line: toks[pos].line,
                col: toks[pos].col,
            },
        )
    }
}

/// First position at or after `pos` that does not hold a `NEWLINE`.
pub open spec fn spec_skip_newlines(toks: Seq<TokenModel>, pos: int) -> int
    decreases toks.len() - pos,
{
    if spec_check(toks, pos, TokenType::Newline) {
        spec_skip_newlines(toks, pos + 1)
    } else {
        pos
    }
}

pub proof fn lemma_skip_newlines_bounds(toks: Seq<TokenModel>, pos: int)
    requires
        0 <= pos <= toks.len(),
    ensures
        pos <= spec_skip_newlines(toks, pos) <= toks.len(),
    decreases toks.len() - pos,
{
    if spec_check(toks, pos, TokenType::Newline) {
        lemma_skip_newlines_bounds(toks, pos + 1);
    }
}

/// One statement at the cursor: dispatch on the current token's category,
/// with a bare expression wrapped in a `Statement` node as the default.
pub open spec fn spec_statement(toks: Seq<TokenModel>, pos: int) -> Result<
    (AstModel, int),
    ParseErrModel,
>
    decreases vstd::math::max(toks.len() - pos, 0), 5int,
{
    let ty = toks[pos].ty;
    if ty == TokenType::Fn {
        spec_function_def(toks, pos)
    } else if ty == TokenType::If {
        spec_if_statement(toks, pos)
    } else if ty == TokenType::When {
        spec_when_statement(toks, pos)
    } else if ty == TokenType::For {
        spec_for_loop(toks, pos)
    } else if ty == TokenType::While {
        spec_while_loop(toks, pos)
    } else {
        match spec_expression(toks, pos, PREC_LOWEST) {
            Ok((e, p)) => Ok((node(NodeType::Statement, None, seq![e]), p)),
            Err(e) => Err(e),
        }
    }
}

/// A function definition: `fn`, its name, bare parameters ended by `:`, and
/// a block body.
pub open spec fn spec_function_def(toks: Seq<TokenModel>, pos: int) -> Result<
    (AstModel, int),
    ParseErrModel,
>
    decreases vstd::math::max(toks.len() - pos, 0), 0int,
{
    match spec_expect(toks, pos, TokenType::Fn) {
        Err(e) => Err(e),
        Ok((_, p1)) => match spec_expect(toks, p1, TokenType::Identifier) {
            Err(e) => Err(e),
            Ok((name, p2)) => match spec_fn_params(toks, p2) {
                Err(e) => Err(e),
                Ok((params, p3)) => match spec_expect(toks, p3, TokenType::Colon) {
                    Err(e) => Err(e),
                    Ok((_, p4)) => match spec_block(toks, bump(pos, p4)) {
                        Err(e) => Err(e),
                        Ok((body, p5)) => Ok(
                            (
                                node(
                                    NodeType::Function,
                                    Some(name),
                                    seq![node(NodeType::Arguments, None, params), body],
                                ),
                                p5,
                            ),
                        ),
                    },
                },
            },
        },
    }
}

/// The parameter list of a function definition: bare identifiers, with
/// optional comma separators, up to the colon.
pub open spec fn spec_fn_params(toks: Seq<TokenModel>, pos: int) -> Result<
    (Seq<AstModel>, int),
    ParseErrModel,
>
    decreases toks.len() - pos,
{
    if spec_check(toks, pos, TokenType::Colon) || at_end(toks, pos) {
        Ok((Seq::empty(), pos))
    } else {
        match spec_expect(toks, pos, TokenType::Identifier) {
            Err(e) => Err(e),
            Ok((param, p1)) => {
                let p2 = if spec_check(toks, p1, TokenType::Comma) {
                    p1 + 1
                } else {
                    p1
                };
                match spec_fn_params(toks, p2) {
                    Err(e) => Err(e),
                    Ok((rest, p3)) => Ok(
                        (seq![node(NodeType::Identifier, Some(param), Seq::empty())] + rest, p3),
                    ),
                }
            },
        }
    }
}

/// An `if` statement: condition, `:`, block, `elseif` clauses, optional
/// trailing `else` block, all children of one `IfStatement` node.
pub open spec fn spec_if_statement(toks: Seq<TokenModel>, pos: int) -> Result<
    (AstModel, int),
    ParseErrModel,
>
    decreases vstd::math::max(toks.len() - pos, 0), 0int,
{
    match spec_expect(toks, pos, TokenType::If) {
        Err(e) => Err(e),
        Ok((if_tok, p1)) => match spec_expression(toks, p1, PREC_LOWEST) {
            Err(e) => Err(e),
            Ok((cond, p2)) => match spec_expect(toks, p2, TokenType::Colon) {
                Err(e) => Err(e),
                Ok((_, p3)) => match spec_block(toks, bump(pos, p3)) {
                    Err(e) => Err(e),
                    Ok((then_b, p4)) => match spec_elseif_clauses(toks, bump(pos, p4)) {
                        Err(e) => Err(e),
                        Ok((clauses, p5)) => {
                            if spec_check(toks, p5, TokenType::Else) {
                                match spec_expect(toks, bump(pos, p5 + 1), TokenType::Colon) {
                                    Err(e) => Err(e),
                                    Ok((_, p6)) => match spec_block(toks, bump(pos, p6)) {
                                        Err(e) => Err(e),
                                        Ok((else_b, p7)) => Ok(
                                            (
                                                node(
                                                    NodeType::IfStatement,
                                                    Some(if_tok),
                                                    seq![cond, then_b] + clauses + seq![else_b],
                                                ),
                                                p7,
                                            ),
                                        ),
                                    },
                                }
                            } else {
                                Ok(
                                    (
                                        node(
                                            NodeType::IfStatement,
                                            Some(if_tok),
                                            seq![cond, then_b] + clauses,
                                        ),
                                        p5,
                                    ),
                                )
                            }
                        },
                    },
                },
            },
        },
    }
}

/// Zero or more `elseif` clauses, each a child `IfStatement` node holding
/// its condition and block.
pub open spec fn spec_elseif_clauses(toks: Seq<TokenModel>, pos: int) -> Result<
    (Seq<AstModel>, int),
    ParseErrModel,
>
    decreases vstd::math::max(toks.len() - pos, 0), 0int,
{
    if spec_check(toks, pos, TokenType::Elseif) {
        match spec_expression(toks, pos + 1, PREC_LOWEST) {
            Err(e) => Err(e),
            Ok((cond, p2)) => match spec_expect(toks, p2, TokenType::Colon) {
                Err(e) => Err(e),
                Ok((_, p3)) => match spec_block(toks, bump(pos, p3)) {
                    Err(e) => Err(e),
                    Ok((b, p4)) => match spec_elseif_clauses(toks, bump(pos, p4)) {
                        Err(e) => Err(e),
                        Ok((rest, p5)) => Ok(
                            (seq![node(NodeType::IfStatement, None, seq![cond, b])] + rest, p5),
                        ),
                    },
                },
            },
        }
    } else {
        Ok((Seq::empty(), pos))
    }
}

/// A `when` statement: subject, `:`, newlines, a mandatory `INDENT`, one or
/// more pattern clauses, then the `DEDENT`.
pub open spec fn spec_when_statement(toks: Seq<TokenModel>, pos: int) -> Result<
    (AstModel, int),
    ParseErrModel,
>
    decreases vstd::math::max(toks.len() - pos, 0), 0int,
{
    match spec_expect(toks, pos, TokenType::When) {
        Err(e) => Err(e),
        Ok((when_tok, p1)) => match spec_expression(toks, p1, PREC_LOWEST) {
            Err(e) => Err(e),
            Ok((subject, p2)) => match spec_expect(toks, p2, TokenType::Colon) {
                Err(e) => Err(e),
                Ok((_, p3)) => {
                    let p4 = vstd::math::max(p3, spec_skip_newlines(toks, p3));
                    match spec_expect(toks, p4, TokenType::Indent) {
                        Err(e) => Err(e),
                        Ok((_, p5)) => match spec_patterns(toks, bump(pos, p5)) {
                            Err(e) => Err(e),
                            Ok((pats, p6)) => match spec_expect(toks, p6, TokenType::Dedent) {
                                Err(e) => Err(e),
                                Ok((_, p7)) => Ok(
                                    (
                                        node(
                                            NodeType::WhenStatement,
                                            Some(when_tok),
                                            seq![subject] + pats,
                                        ),
                                        p7,
                                    ),
                                ),
                            },
                        },
                    }
                },
            },
        },
    }
}

/// The pattern clauses of a `when`, up to its `DEDENT`.
pub open spec fn spec_patterns(toks: Seq<TokenModel>, pos: int) -> Result<
    (Seq<AstModel>, int),
    ParseErrModel,
>
    decreases vstd::math::max(toks.len() - pos, 0), 5int,
{
    if spec_check(toks, pos, TokenType::Dedent) || at_end(toks, pos) {
        Ok((Seq::empty(), pos))
    } else {
        match spec_pattern(toks, pos) {
            Err(e) => Err(e),
            Ok((pat, p1)) => {
                let p2 = bump(pos, vstd::math::max(p1, spec_skip_newlines(toks, p1)));
                match spec_patterns(toks, p2) {
                    Err(e) => Err(e),
                    Ok((rest, p3)) => Ok((seq![pat] + rest, p3)),
                }
            },
        }
    }
}

/// One pattern clause: guard expressions joined by `or`, a colon, and the
/// result expression — guards first, result last.
pub open spec fn spec_pattern(toks: Seq<TokenModel>, pos: int) -> Result<
    (AstModel, int),
    ParseErrModel,
>
    decreases vstd::math::max(toks.len() - pos, 0), 4int,
{
    match spec_pattern_guards(toks, pos) {
        Err(e) => Err(e),
        Ok((guards, p1)) => match spec_expect(toks, p1, TokenType::Colon) {
            Err(e) => Err(e),
            Ok((_, p2)) => match spec_expression(toks, bump(pos, p2), PREC_LOWEST) {
                Err(e) => Err(e),
                Ok((result, p3)) => Ok((node(NodeType::Pattern, None, guards + seq![result]), p3)),
            },
        },
    }
}

/// One or more guard expressions at comma precedence, joined by `or`.
pub open spec fn spec_pattern_guards(toks: Seq<TokenModel>, pos: int) -> Result<
    (Seq<AstModel>, int),
    ParseErrModel,
>
    decreases vstd::math::max(toks.len() - pos, 0), 3int,
{
    match spec_expression(toks, pos, PREC_COMMA) {
        Err(e) => Err(e),
        Ok((g, p1)) => {
            if spec_check(toks, p1, TokenType::Or) {
                match spec_pattern_guards(toks, bump(pos, p1 + 1)) {
                    Err(e) => Err(e),
                    Ok((rest, p2)) => Ok((seq![g] + rest, p2)),
                }
            } else {
                Ok((seq![g], p1))
            }
        },
    }
}

/// A `for` loop: variable, `in`, iterable, `:`, block.
pub open spec fn spec_for_loop(toks: Seq<TokenModel>, pos: int) -> Result<
    (AstModel, int),
    ParseErrModel,
>
    decreases vstd::math::max(toks.len() - pos, 0), 0int,
{
    match spec_expect(toks, pos, TokenType::For) {
        Err(e) => Err(e),
        Ok((for_tok, p1)) => match spec_expect(toks, p1, TokenType::Identifier) {
            Err(e) => Err(e),
            Ok((var, p2)) => match spec_expect(toks, p2, TokenType::In) {
                Err(e) => Err(e),
                Ok((_, p3)) => match spec_expression(toks, p3, PREC_LOWEST) {
                    Err(e) => Err(e),
                    Ok((iterable, p4)) => match spec_expect(toks, p4, TokenType::Colon) {
                        Err(e) => Err(e),
                        Ok((_, p5)) => match spec_block(toks, bump(pos, p5)) {
                            Err(e) => Err(e),
                            Ok((body, p6)) => Ok(
                                (
                                    node(
                                        NodeType::ForLoop,
                                        Some(for_tok),
                                        seq![
                                            node(NodeType::Identifier, Some(var), Seq::empty()),
                                            iterable,
                                            body,
                                        ],
                                    ),
                                    p6,
                                ),
                            ),
                        },
                    },
                },
            },
        },
    }
}

/// A `while` loop: condition, `:`, block.
pub open spec fn spec_while_loop(toks: Seq<TokenModel>, pos: int) -> Result<
    (AstModel, int),
    ParseErrModel,
>
    decreases vstd::math::max(toks.len() - pos, 0), 0int,
{
    match spec_expect(toks, pos, TokenType::While) {
        Err(e) => Err(e),
        Ok((while_tok, p1)) => match spec_expression(toks, p1, PREC_LOWEST) {
            Err(e) => Err(e),
            Ok((cond, p2)) => match spec_expect(toks, p2, TokenType::Colon) {
                Err(e) => Err(e),
                Ok((_, p3)) => match spec_block(toks, bump(pos, p3)) {
                    Err(e) => Err(e),
                    Ok((body, p4)) => Ok(
                        (node(NodeType::WhileLoop, Some(while_tok), seq![cond, body]), p4),
                    ),
                },
            },
        },
    }
}

/// A block: after leading newlines, either an indented statement list up to
/// its `DEDENT`, or exactly one inline statement.
pub open spec fn spec_block(toks: Seq<TokenModel>, pos: int) -> Result<
    (AstModel, int),
    ParseErrModel,
>
    decreases vstd::math::max(toks.len() - pos, 0), 6int,
{
    let p1 = vstd::math::max(pos, spec_skip_newlines(toks, pos));
    if spec_check(toks, p1, TokenType::Indent) {
        match spec_block_stmts(toks, bump(pos, p1 + 1)) {
            Err(e) => Err(e),
            Ok((stmts, p2)) => match spec_expect(toks, p2, TokenType::Dedent) {
                Err(e) => Err(e),
                Ok((_, p3)) => Ok((node(NodeType::Block, None, stmts), p3)),
            },
        }
    } else {
        match spec_statement(toks, p1) {
            Err(e) => Err(e),
            Ok((st, p2)) => Ok((node(NodeType::Block, None, seq![st]), p2)),
        }
    }
}

/// The statements of an indented block, up to its `DEDENT`, newlines
/// between them skipped.
pub open spec fn spec_block_stmts(toks: Seq<TokenModel>, pos: int) -> Result<
    (Seq<AstModel>, int),
    ParseErrModel,
>
    decreases vstd::math::max(toks.len() - pos, 0), 6int,
{
    if spec_check(toks, pos, TokenType::Dedent) || at_end(toks, pos) {
        Ok((Seq::empty(), pos))
    } else {
        let p1 = vstd::math::max(pos, spec_skip_newlines(toks, pos));
        if spec_check(toks, p1, TokenType::Dedent) {
            Ok((Seq::empty(), p1))
        } else {
            match spec_statement(toks, p1) {
                Err(e) => Err(e),
                Ok((st, p2)) => {
                    let p3 = bump(pos, vstd::math::max(p2, spec_skip_newlines(toks, p2)));
                    match spec_block_stmts(toks, p3) {
                        Err(e) => Err(e),
                        Ok((rest, p4)) => Ok((seq![st] + rest, p4)),
                    }
                },
            }
        }
    }
}

/// The top-level statements, up to the `EOF`.
pub open spec fn spec_statements(toks: Seq<TokenModel>, pos: int) -> Result<
    (Seq<AstModel>, int),
    ParseErrModel,
>
    decreases vstd::math::max(toks.len() - pos, 0), 6int,
{
    if at_end(toks, pos) {
        Ok((Seq::empty(), pos))
    } else {
        let p1 = vstd::math::max(pos, spec_skip_newlines(toks, pos));
        if at_end(toks, p1) {
            Ok((Seq::empty(), p1))
        } else {
            match spec_statement(toks, p1) {
                Err(e) => Err(e),
                Ok((st, p2)) => {
                    let p3 = bump(pos, vstd::math::max(p2, spec_skip_newlines(toks, p2)));
                    match spec_statements(toks, p3) {
                        Err(e) => Err(e),
                        Ok((rest, p4)) => Ok((seq![st] + rest, p4)),
                    }
                },
            }
        }
    }
}

/// What parsing a token sequence yields: the `CompilationUnit` whose
/// children are the top-level statements, or the first parse failure. The
/// tree of every token sequence is this function's value — parsing is
/// deterministic.
pub open spec fn spec_parse(toks: Seq<TokenModel>) -> Result<AstModel, ParseErrModel> {
    match spec_statements(toks, 0) {
        Ok((children, _)) => Ok(node(NodeType::CompilationUnit, None, children)),
        Err(e) => Err(e),
    }
}

/// A full expression at a binding strength: one prefix term, then infix
/// continuations while the next token binds strictly tighter.
pub open spec fn spec_expression(toks: Seq<TokenModel>, pos: int, min_prec: u32) -> Result<
    (AstModel, int),
    ParseErrModel,
>
    decreases vstd::math::max(toks.len() - pos, 0), 2int,
{
    if pos < 0 || pos >= toks.len() {
        // No token stands here; the scan never reaches this case.
        spec_prefix(toks, pos)
    } else {
        match spec_prefix(toks, pos) {
            Err(e) => Err(e),
            Ok((left, p1)) => spec_infix_loop(toks, bump(pos, p1), min_prec, left),
        }
    }
}

/// The infix continuation loop: stops at the end, at a `NEWLINE`, or when
/// the next token does not bind strictly tighter than `min_prec`.
pub open spec fn spec_infix_loop(
    toks: Seq<TokenModel>,
    pos: int,
    min_prec: u32,
    left: AstModel,
) -> Result<(AstModel, int), ParseErrModel>
    decreases vstd::math::max(toks.len() - pos, 0), 4int,
{
    if at_end(toks, pos) || !(min_prec < spec_token_prec(toks[pos].ty)) || toks[pos].ty
        == TokenType::Newline {
        Ok((left, pos))
    } else {
        match spec_infix(toks, pos, left) {
            Err(e) => Err(e),
            Ok((left2, p1)) => spec_infix_loop(toks, bump(pos, p1), min_prec, left2),
        }
    }
}

/// One prefix term: a literal or identifier, a parenthesized expression, a
/// list or dict literal, a unary operator, or an `@`-prefixed call; any
/// other token is the prefix-position failure.
pub open spec fn spec_prefix(toks: Seq<TokenModel>, pos: int) -> Result<
    (AstModel, int),
    ParseErrModel,
>
    decreases vstd::math::max(toks.len() - pos, 0), 1int,
{
    let t = toks[pos];
    let ty = t.ty;
    if pos < 0 || pos >= toks.len() {
        // No token stands here; the scan never reaches this case.
        Err(ParseErrModel::UnexpectedPrefixToken { found: ty, line: t.line, col: t.col })
    } else if ty == TokenType::Integer || ty == TokenType::Float || ty == TokenType::String {
        Ok((node(NodeType::Literal, Some(t), Seq::empty()), pos + 1))
    } else if ty == TokenType::Identifier {
        Ok((node(NodeType::Identifier, Some(t), Seq::empty()), pos + 1))
    } else if ty == TokenType::Lparen {
        match spec_expression(toks, pos + 1, PREC_LOWEST) {
            Err(e) => Err(e),
            Ok((inner, p1)) => match spec_expect(toks, p1, TokenType::Rparen) {
                Err(e) => Err(e),
                Ok((_, p2)) => Ok((inner, p2)),
            },
        }
    } else if ty == TokenType::Lbrace {
        spec_list(toks, pos)
    } else if ty == TokenType::Lsquare {
        spec_dict(toks, pos)
    } else if ty == TokenType::Minus || ty == TokenType::Not || ty == TokenType::Tilde {
        match spec_expression(toks, pos + 1, PREC_UNARY) {
            Err(e) => Err(e),
            Ok((operand, p1)) => Ok((node(NodeType::UnaryOp, Some(t), seq![operand]), p1)),
        }
    } else if ty == TokenType::At {
        match spec_expression(toks, pos + 1, PREC_CALL) {
            Err(e) => Err(e),
            Ok((callee, p1)) => spec_call_args(toks, bump(pos, p1), callee),
        }
    } else {
        Err(ParseErrModel::UnexpectedPrefixToken { found: ty, line: t.line, col: t.col })
    }
}

/// One infix or postfix continuation of `left`, dispatching on the current
/// token: a binary operator, the right-associative `**`, a pipe, an
/// assignment, the postfix ternary, a member access, a parenthesized call,
/// or juxtaposition (application) for a token that could begin an
/// expression. Any other token leaves `left` as it stands; under the loop's
/// guard that case is unreachable.
pub open spec fn spec_infix(toks: Seq<TokenModel>, pos: int, left: AstModel) -> Result<
    (AstModel, int),
    ParseErrModel,
>
    decreases vstd::math::max(toks.len() - pos, 0), 3int,
{
    let t = toks[pos];
    let ty = t.ty;
    if is_binary_op(ty) {
        match spec_expression(toks, pos + 1, spec_token_prec(ty)) {
            Err(e) => Err(e),
            Ok((right, p1)) => Ok((node(NodeType::BinaryOp, Some(t), seq![left, right]), p1)),
        }
    } else if ty == TokenType::Power {
        // One step below its own level: a following `**` binds into the
        // right operand, so chains group to the right.
        match spec_expression(toks, pos + 1, (PREC_EXPONENT - 1) as u32) {
            Err(e) => Err(e),
            Ok((right, p1)) => Ok((node(NodeType::BinaryOp, Some(t), seq![left, right]), p1)),
        }
    } else if ty == TokenType::Pipe {
        match spec_expression(toks, pos + 1, PREC_PIPE) {
            Err(e) => Err(e),
            Ok((right, p1)) => Ok((node(NodeType::Pipe, Some(t), seq![left, right]), p1)),
        }
    } else if ty == TokenType::Equals {
        // One step below its own level: assignment groups to the right.
        match spec_expression(toks, pos + 1, (PREC_ASSIGNMENT - 1) as u32) {
            Err(e) => Err(e),
            Ok((right, p1)) => Ok((node(NodeType::Operator, Some(t), seq![left, right]), p1)),
        }
    } else if ty == TokenType::If {
        match spec_expression(toks, pos + 1, PREC_OR) {
            Err(e) => Err(e),
            Ok((cond, p1)) => match spec_expect(toks, p1, TokenType::Else) {
                Err(e) => Err(e),
                Ok((_, p2)) => match spec_expression(toks, bump(pos, p2), PREC_TERNARY) {
                    Err(e) => Err(e),
                    Ok((else_e, p3)) => Ok(
                        (node(NodeType::Ternary, None, seq![cond, left, else_e]), p3),
                    ),
                },
            },
        }
    } else if ty == TokenType::Dot {
        match spec_expect(toks, pos + 1, TokenType::Identifier) {
            Err(e) => Err(e),
            Ok((member, p1)) => Ok((node(NodeType::MemberAccess, Some(member), seq![left]), p1)),
        }
    } else if ty == TokenType::Lparen {
        spec_call_args(toks, pos, left)
    } else if can_start(ty) {
        match spec_expression(toks, pos, PREC_TERM) {
            Err(e) => Err(e),
            Ok((arg, p1)) => Ok((node(NodeType::FunctionCall, None, seq![left, arg]), p1)),
        }
    } else {
        Ok((left, pos))
    }
}

/// A parenthesized call of `func`: `(`, comma-separated arguments wrapped
/// in one `Arguments` node, `)`.
pub open spec fn spec_call_args(toks: Seq<TokenModel>, pos: int, func: AstModel) -> Result<
    (AstModel, int),
    ParseErrModel,
>
    decreases vstd::math::max(toks.len() - pos, 0), 0int,
{
    match spec_expect(toks, pos, TokenType::Lparen) {
        Err(e) => Err(e),
        Ok((_, p1)) => {
            if spec_check(toks, p1, TokenType::Rparen) {
                Ok(
                    (
                        node(
                            NodeType::FunctionCall,
                            None,
                            seq![func, node(NodeType::Arguments, None, Seq::empty())],
                        ),
                        p1 + 1,
                    ),
                )
            } else {
                match spec_arg_elems(toks, p1) {
                    Err(e) => Err(e),
                    Ok((args, p2)) => match spec_expect(toks, p2, TokenType::Rparen) {
                        Err(e) => Err(e),
                        Ok((_, p3)) => Ok(
                            (
                                node(
                                    NodeType::FunctionCall,
                                    None,
                                    seq![func, node(NodeType::Arguments, None, args)],
                                ),
                                p3,
                            ),
                        ),
                    },
                }
            }
        },
    }
}

/// Comma-separated elements, each one step above comma precedence so the
/// separator stops them.
pub open spec fn spec_arg_elems(toks: Seq<TokenModel>, pos: int) -> Result<
    (Seq<AstModel>, int),
    ParseErrModel,
>
    decreases vstd::math::max(toks.len() - pos, 0), 3int,
{
    if pos < 0 || pos >= toks.len() {
        // No token stands here; the scan never reaches this case.
        Err(
            ParseErrModel::UnexpectedPrefixToken {
                found: toks[pos].ty,
                line: toks[pos].line,
                col: toks[pos].col,
            },
        )
    } else {
    match spec_expression(toks, pos, (PREC_COMMA + 1) as u32) {
        Err(e) => Err(e),
        Ok((a, p1)) => {
            if spec_check(toks, p1, TokenType::Comma) {
                match spec_arg_elems(toks, bump(pos, p1 + 1)) {
                    Err(e) => Err(e),
                    Ok((rest, p2)) => Ok((seq![a] + rest, p2)),
                }
            } else {
                Ok((seq![a], p1))
            }
        },
    }
}
}

/// A list literal: `{`, comma-separated elements, `}`.
pub open spec fn spec_list(toks: Seq<TokenModel>, pos: int) -> Result<
    (AstModel, int),
    ParseErrModel,
>
    decreases vstd::math::max(toks.len() - pos, 0), 0int,
{
    match spec_expect(toks, pos, TokenType::Lbrace) {
        Err(e) => Err(e),
        Ok((_, p1)) => {
            if spec_check(toks, p1, TokenType::Rbrace) {
                Ok((node(NodeType::List, None, Seq::empty()), p1 + 1))
            } else {
                match spec_arg_elems(toks, p1) {
                    Err(e) => Err(e),
                    Ok((elems, p2)) => match spec_expect(toks, p2, TokenType::Rbrace) {
                        Err(e) => Err(e),
                        Ok((_, p3)) => Ok((node(NodeType::List, None, elems), p3)),
                    },
                }
            }
        },
    }
}

/// A dict literal: `[`, comma-separated `key: value` pairs each wrapped in
/// an `Expression` node, `]`.
pub open spec fn spec_dict(toks: Seq<TokenModel>, pos: int) -> Result<
    (AstModel, int),
    ParseErrModel,
>
    decreases vstd::math::max(toks.len() - pos, 0), 0int,
{
    match spec_expect(toks, pos, TokenType::Lsquare) {
        Err(e) => Err(e),
        Ok((_, p1)) => {
            if spec_check(toks, p1, TokenType::Rsquare) {
                Ok((node(NodeType::Dict, None, Seq::empty()), p1 + 1))
            } else {
                match spec_dict_pairs(toks, p1) {
                    Err(e) => Err(e),
                    Ok((pairs, p2)) => match spec_expect(toks, p2, TokenType::Rsquare) {
                        Err(e) => Err(e),
                        Ok((_, p3)) => Ok((node(NodeType::Dict, None, pairs), p3)),
                    },
                }
            }
        },
    }
}

/// The pairs of a dict literal.
pub open spec fn spec_dict_pairs(toks: Seq<TokenModel>, pos: int) -> Result<
    (Seq<AstModel>, int),
    ParseErrModel,
>
    decreases vstd::math::max(toks.len() - pos, 0), 3int,
{
    if pos < 0 || pos >= toks.len() {
        // No token stands here; the scan never reaches this case.
        Err(
            ParseErrModel::UnexpectedPrefixToken {
                found: toks[pos].ty,
                line: toks[pos].line,
                col: toks[pos].col,
            },
        )
    } else {
    match spec_expression(toks, pos, (PREC_COMMA + 1) as u32) {
        Err(e) => Err(e),
        Ok((k, p1)) => match spec_expect(toks, p1, TokenType::Colon) {
            Err(e) => Err(e),
            Ok((_, p2)) => match spec_expression(toks, bump(pos, p2), (PREC_COMMA + 1) as u32) {
                Err(e) => Err(e),
                Ok((v, p3)) => {
                    let pair = node(NodeType::Expression, None, seq![k, v]);
                    if spec_check(toks, p3, TokenType::Comma) {
                        match spec_dict_pairs(toks, bump(pos, p3 + 1)) {
                            Err(e) => Err(e),
                            Ok((rest, p4)) => Ok((seq![pair] + rest, p4)),
                        }
                    } else {
                        Ok((seq![pair], p3))
                    }
                },
            },
        },
    }
}
}

/// The token sequence holds an `EOF` at or after the cursor. The sequences
/// the lexer produces always do; the parser's cursor never passes it.
pub open spec fn has_eof_from(toks: Seq<TokenModel>, pos: int) -> bool {
    exists|i: int| pos <= i < toks.len() && (#[trigger] toks[i]).ty == TokenType::Eof
}

pub proof fn lemma_eof_step(toks: Seq<TokenModel>, pos: int)
    requires
        has_eof_from(toks, pos),
        !at_end(toks, pos),
    ensures
        has_eof_from(toks, pos + 1),
{
    let i = choose|i: int| pos <= i < toks.len() && (#[trigger] toks[i]).ty == TokenType::Eof;
    assert(pos + 1 <= i < toks.len() && toks[i].ty == TokenType::Eof);
}

/// Success: these elements, then the rest, ending where the rest ends;
/// failure: the failure.
pub open spec fn prepend_elems(
    pre: Seq<AstModel>,
    r: Result<(Seq<AstModel>, int), ParseErrModel>,
) -> Result<(Seq<AstModel>, int), ParseErrModel> {
    match r {
        Ok((s, p)) => Ok((pre + s, p)),
        Err(e) => Err(e),
    }
}

pub proof fn lemma_prepend_elems_assoc(
    a: Seq<AstModel>,
    b: Seq<AstModel>,
    r: Result<(Seq<AstModel>, int), ParseErrModel>,
)
    ensures
        prepend_elems(a, prepend_elems(b, r)) == prepend_elems(a + b, r),
{
    match r {
        Ok((s, p)) => {
            assert(a + (b + s) =~= (a + b) + s);
        },
        Err(_) => {},
    }
}

/// The parser: a read cursor over the owned token sequence.
pub struct Parser {
    tokens: Vec<Token>,
    position: usize,
}

impl Parser {
    /// The models of the tokens under the cursor.
    pub closed spec fn toks(self) -> Seq<TokenModel> {
        tokens_view(self.tokens@)
    }

    /// The cursor.
    pub closed spec fn pos(self) -> int {
        self.position as int
    }

    /// Well-formedness: the cursor has not passed the `EOF` token that ends
    /// every token sequence.
    pub open spec fn wf(self) -> bool {
        &&& 0 <= self.pos() <= self.toks().len()
        &&& has_eof_from(self.toks(), self.pos())
    }

    /// Readies a parse of `tokens` from its first token.
    pub fn new(tokens: Vec<Token>) -> (p: Parser)
        ensures
            p.toks() == tokens_view(tokens@),
            p.pos() == 0,
    {
        Parser { tokens, position: 0 }
    }

    fn is_at_end(&self) -> (r: bool)
        requires
            self.wf(),
        ensures
            r == at_end(self.toks(), self.pos()),
    {
        proof {
            assert(self.toks().len() == self.tokens@.len());
        }
        if self.position >= self.tokens.len() {
            true
        } else {
            self.tokens[self.position].token_type == TokenType::Eof
        }
    }

    fn current(&self) -> (t: &Token)
        requires
            self.wf(),
        ensures
            t@ == self.toks()[self.pos()],
    {
        proof {
            assert(self.position < self.tokens@.len());
            assert(self.toks().len() == self.tokens@.len());
        }
        &self.tokens[self.position]
    }

    /// Returns the current token and moves the cursor past it, unless it is
    /// exhausted.
    fn advance(&mut self) -> (t: Token)
        requires
            old(self).wf(),
        ensures
            final(self).wf(),
            final(self).toks() == old(self).toks(),
            t@ == old(self).toks()[old(self).pos()],
            final(self).pos() == (if at_end(old(self).toks(), old(self).pos()) {
                old(self).pos()
            } else {
                old(self).pos() + 1
            }),
    {
        proof {
            assert(self.position < self.tokens@.len());
            assert(self.toks().len() == self.tokens@.len());
        }
        let t = self.tokens[self.position].clone();
        let n = self.tokens.len();
        if !self.is_at_end() {
            proof {
                lemma_eof_step(self.toks(), self.pos());
                assert(self.position < n);
            }
            self.position = self.position + 1;
        }
        t
    }

    fn check(&self, ty: TokenType) -> (r: bool)
        requires
            self.wf(),
        ensures
            r == spec_check(self.toks(), self.pos(), ty),
    {
        if self.is_at_end() {
            false
        } else {
            self.current().token_type == ty
        }
    }

    fn expect(&mut self, ty: TokenType) -> (r: Result<Token, ParseError>)
        requires
            old(self).wf(),
        ensures
            final(self).wf(),
            final(self).toks() == old(self).toks(),
            match r {
                Ok(t) => spec_expect(old(self).toks(), old(self).pos(), ty) == Ok::<
                    _,
                    ParseErrModel,
                >((t@, final(self).pos())) && final(self).pos() == old(self).pos() + 1,
                Err(e) => spec_expect(old(self).toks(), old(self).pos(), ty) == Err::<
                    (TokenModel, int),
                    _,
                >(e@) && final(self).pos() == old(self).pos(),
            },
    {
        if self.check(ty) {
            Ok(self.advance())
        } else {
            let found = self.current().token_type;
            let line = self.current().line;
            let col = self.current().column;
            Err(ParseError::ExpectedToken { expected: ty, found, line, col })
        }
    }

    fn skip_newlines(&mut self)
        requires
            old(self).wf(),
        ensures
            final(self).wf(),
            final(self).toks() == old(self).toks(),
            final(self).pos() == spec_skip_newlines(old(self).toks(), old(self).pos()),
    {
        loop
            invariant
                self.wf(),
                self.toks() == old(self).toks(),
                old(self).pos() <= self.pos(),
                spec_skip_newlines(self.toks(), old(self).pos()) == spec_skip_newlines(
                    self.toks(),
                    self.pos(),
                ),
            ensures
                self.wf(),
                self.toks() == old(self).toks(),
                self.pos() == spec_skip_newlines(self.toks(), old(self).pos()),
            decreases self.toks().len() - self.pos(),
        {
            if self.check(TokenType::Newline) {
                self.advance();
            } else {
                break;
            }
        }
    }

    fn can_start_expression(&self) -> (r: bool)
        requires
            self.wf(),
        ensures
            r == can_start(self.toks()[self.pos()].ty),
    {
        let ty = self.current().token_type;
        ty == TokenType::Integer || ty == TokenType::Float || ty == TokenType::String || ty
            == TokenType::Identifier || ty == TokenType::Lparen || ty == TokenType::Lbrace || ty
            == TokenType::Lsquare || ty == TokenType::Minus || ty == TokenType::Not || ty
            == TokenType::Tilde || ty == TokenType::At
    }

    fn token_precedence(&self, ty: TokenType) -> (p: crate::ast::Precedence)
        ensures
            p.0 == spec_token_prec(ty),
    {
        let v: u32 = if ty == TokenType::Equals {
            PREC_ASSIGNMENT
        } else if ty == TokenType::Pipe {
            PREC_PIPE
        } else if ty == TokenType::Comma {
            PREC_COMMA
        } else if ty == TokenType::If {
            PREC_TERNARY
        } else if ty == TokenType::Or {
            PREC_OR
        } else if ty == TokenType::And {
            PREC_AND
        } else if ty == TokenType::Ampersand {
            PREC_BITWISE_AND
        } else if ty == TokenType::EqualsEquals || ty == TokenType::NotEquals {
            PREC_EQUALITY
        } else if ty == TokenType::Less || ty == TokenType::LessEquals || ty == TokenType::Greater
            || ty == TokenType::GreaterEquals {
            PREC_COMPARISON
        } else if ty == TokenType::DotDot {
            PREC_RANGE
        } else if ty == TokenType::Plus || ty == TokenType::Minus {
            PREC_TERM
        } else if ty == TokenType::Star || ty == TokenType::Slash || ty == TokenType::Percent {
            PREC_FACTOR
        } else if ty == TokenType::Power {
            PREC_EXPONENT
        } else if ty == TokenType::Dot || ty == TokenType::Lparen {
            PREC_CALL
        } else if ty == TokenType::Integer || ty == TokenType::Float || ty == TokenType::String
            || ty == TokenType::Identifier || ty == TokenType::Lbrace || ty == TokenType::Lsquare
            || ty == TokenType::Not || ty == TokenType::Tilde || ty == TokenType::At {
            PREC_APPLICATION
        } else {
            PREC_LOWEST
        };
        crate::ast::Precedence(v)
    }

    fn current_precedence(&self) -> (p: crate::ast::Precedence)
        requires
            self.wf(),
        ensures
            p.0 == (if at_end(self.toks(), self.pos()) {
                PREC_LOWEST
            } else {
                spec_token_prec(self.toks()[self.pos()].ty)
            }),
    {
        if self.is_at_end() {
            crate::ast::Precedence(PREC_LOWEST)
        } else {
            self.token_precedence(self.current().token_type)
        }
    }

    fn expression(&mut self, min_prec: crate::ast::Precedence) -> (r: Result<AstNode, ParseError>)
        requires
            old(self).wf(),
        ensures
            final(self).wf(),
            final(self).toks() == old(self).toks(),
            match r {
                Ok(n) => spec_expression(old(self).toks(), old(self).pos(), min_prec.0) == Ok::<
                    _,
                    ParseErrModel,
                >((n@, final(self).pos())) && old(self).pos() < final(self).pos(),
                Err(e) => spec_expression(old(self).toks(), old(self).pos(), min_prec.0) == Err::<
                    (AstModel, int),
                    _,
                >(e@),
            },
        decreases self.tokens@.len() - self.position, 2int,
    {
        let ghost toks = self.toks();
        let ghost p0 = self.pos();
        let mut left = match self.prefix() {
            Ok(n) => n,
            Err(e) => {
                return Err(e);
            },
        };
        proof {
            assert(spec_expression(toks, p0, min_prec.0) == spec_infix_loop(
                toks,
                self.pos(),
                min_prec.0,
                left@,
            ));
        }
        loop
            invariant
                self.wf(),
                toks == old(self).toks(),
                p0 == old(self).pos(),
                self.toks() == toks,
                p0 < self.pos(),
                spec_infix_loop(toks, self.pos(), min_prec.0, left@) == spec_expression(
                    toks,
                    p0,
                    min_prec.0,
                ),
            ensures
                self.wf(),
                self.toks() == toks,
                p0 < self.pos(),
                spec_expression(toks, p0, min_prec.0) == Ok::<_, ParseErrModel>((
                    left@,
                    self.pos(),
                )),
            decreases self.toks().len() - self.pos(),
        {
            if self.is_at_end() {
                break;
            }
            let cp = self.current_precedence();
            if !(min_prec.0 < cp.0) {
                break;
            }
            if self.check(TokenType::Newline) {
                break;
            }
            let ghost pos_b = self.pos();
            let ghost left_b = left@;
            left = match self.infix(left) {
                Ok(n) => n,
                Err(e) => {
                    return Err(e);
                },
            };
            proof {
                assert(spec_infix_loop(toks, pos_b, min_prec.0, left_b) == spec_infix_loop(
                    toks,
                    self.pos(),
                    min_prec.0,
                    left@,
                ));
            }
        }
        Ok(left)
    }

    fn prefix(&mut self) -> (r: Result<AstNode, ParseError>)
        requires
            old(self).wf(),
        ensures
            final(self).wf(),
            final(self).toks() == old(self).toks(),
            match r {
                Ok(n) => spec_prefix(old(self).toks(), old(self).pos()) == Ok::<_, ParseErrModel>(
                    (n@, final(self).pos()),
                ) && old(self).pos() < final(self).pos(),
                Err(e) => spec_prefix(old(self).toks(), old(self).pos()) == Err::<
                    (AstModel, int),
                    _,
                >(e@),
            },
        decreases self.tokens@.len() - self.position, 1int,
    {
        let ghost toks = self.toks();
        let ghost p0 = self.pos();
        let ty = self.current().token_type;
        if ty == TokenType::Integer || ty == TokenType::Float || ty == TokenType::String {
            let token = self.advance();
            Ok(AstNode::new(NodeType::Literal, Some(token)))
        } else if ty == TokenType::Identifier {
            let token = self.advance();
            Ok(AstNode::new(NodeType::Identifier, Some(token)))
        } else if ty == TokenType::Lparen {
            self.advance();
            let inner = match self.expression(crate::ast::Precedence(PREC_LOWEST)) {
                Ok(n) => n,
                Err(e) => {
                    return Err(e);
                },
            };
            match self.expect(TokenType::Rparen) {
                Ok(_) => (),
                Err(e) => {
                    return Err(e);
                },
            }
            Ok(inner)
        } else if ty == TokenType::Lbrace {
            self.parse_list()
        } else if ty == TokenType::Lsquare {
            self.parse_dict()
        } else if ty == TokenType::Minus || ty == TokenType::Not || ty == TokenType::Tilde {
            let op_token = self.advance();
            let operand = match self.expression(crate::ast::Precedence(PREC_UNARY)) {
                Ok(n) => n,
                Err(e) => {
                    return Err(e);
                },
            };
            let ghost om = operand@;
            let mut children: Vec<AstNode> = Vec::new();
            children.push(operand);
            proof {
                crate::ast::lemma_asts_view_push(Seq::<AstNode>::empty(), children@[0]);
                assert(asts_view(children@) =~= seq![om]);
            }
            Ok(AstNode::with_children(NodeType::UnaryOp, Some(op_token), children))
        } else if ty == TokenType::At {
            self.advance();
            let callee = match self.expression(crate::ast::Precedence(PREC_CALL)) {
                Ok(n) => n,
                Err(e) => {
                    return Err(e);
                },
            };
            self.parse_function_call_with_func(callee)
        } else {
            let line = self.current().line;
            let col = self.current().column;
            Err(ParseError::UnexpectedPrefixToken { found: ty, line, col })
        }
    }

    fn infix(&mut self, left: AstNode) -> (r: Result<AstNode, ParseError>)
        requires
            old(self).wf(),
            !at_end(old(self).toks(), old(self).pos()),
            PREC_LOWEST < spec_token_prec(old(self).toks()[old(self).pos()].ty),
        ensures
            final(self).wf(),
            final(self).toks() == old(self).toks(),
            match r {
                Ok(n) => spec_infix(old(self).toks(), old(self).pos(), left@) == Ok::<
                    _,
                    ParseErrModel,
                >((n@, final(self).pos())) && old(self).pos() < final(self).pos(),
                Err(e) => spec_infix(old(self).toks(), old(self).pos(), left@) == Err::<
                    (AstModel, int),
                    _,
                >(e@),
            },
        decreases self.tokens@.len() - self.position, 3int,
    {
        let ghost toks = self.toks();
        let ghost p0 = self.pos();
        let ghost leftm = left@;
        let ty = self.current().token_type;
        if ty == TokenType::Plus || ty == TokenType::Minus || ty == TokenType::Star || ty
            == TokenType::Slash || ty == TokenType::Percent || ty == TokenType::EqualsEquals || ty
            == TokenType::NotEquals || ty == TokenType::Less || ty == TokenType::LessEquals || ty
            == TokenType::Greater || ty == TokenType::GreaterEquals || ty == TokenType::And || ty
            == TokenType::Or || ty == TokenType::Ampersand || ty == TokenType::DotDot || ty
            == TokenType::Comma {
            let op_token = self.advance();
            let prec = self.token_precedence(op_token.token_type);
            let right = match self.expression(prec) {
                Ok(n) => n,
                Err(e) => {
                    return Err(e);
                },
            };
            let ghost rm = right@;
            let mut children: Vec<AstNode> = Vec::new();
            children.push(left);
            children.push(right);
            proof {
                crate::ast::lemma_asts_view_push(Seq::<AstNode>::empty(), children@[0]);
                crate::ast::lemma_asts_view_push(children@.drop_last(), children@[1]);
                assert(children@.drop_last() =~= Seq::<AstNode>::empty().push(children@[0]));
                assert(asts_view(children@) =~= seq![leftm, rm]);
            }
            Ok(AstNode::with_children(NodeType::BinaryOp, Some(op_token), children))
        } else if ty == TokenType::Power {
            let op_token = self.advance();
            let right = match self.expression(crate::ast::Precedence(PREC_EXPONENT - 1)) {
                Ok(n) => n,
                Err(e) => {
                    return Err(e);
                },
            };
            let ghost rm = right@;
            let mut children: Vec<AstNode> = Vec::new();
            children.push(left);
            children.push(right);
            proof {
                crate::ast::lemma_asts_view_push(Seq::<AstNode>::empty(), children@[0]);
                crate::ast::lemma_asts_view_push(children@.drop_last(), children@[1]);
                assert(children@.drop_last() =~= Seq::<AstNode>::empty().push(children@[0]));
                assert(asts_view(children@) =~= seq![leftm, rm]);
            }
            Ok(AstNode::with_children(NodeType::BinaryOp, Some(op_token), children))
        } else if ty == TokenType::Pipe {
            let pipe_token = self.advance();
            let right = match self.expression(crate::ast::Precedence(PREC_PIPE)) {
                Ok(n) => n,
                Err(e) => {
                    return Err(e);
                },
            };
            let ghost rm = right@;
            let mut children: Vec<AstNode> = Vec::new();
            children.push(left);
            children.push(right);
            proof {
                crate::ast::lemma_asts_view_push(Seq::<AstNode>::empty(), children@[0]);
                crate::ast::lemma_asts_view_push(children@.drop_last(), children@[1]);
                assert(children@.drop_last() =~= Seq::<AstNode>::empty().push(children@[0]));
                assert(asts_view(children@) =~= seq![leftm, rm]);
            }
            Ok(AstNode::with_children(NodeType::Pipe, Some(pipe_token), children))
        } else if ty == TokenType::Equals {
            let eq_token = self.advance();
            let right = match self.expression(crate::ast::Precedence(PREC_ASSIGNMENT - 1)) {
                Ok(n) => n,
                Err(e) => {
                    return Err(e);
                },
            };
            let ghost rm = right@;
            let mut children: Vec<AstNode> = Vec::new();
            children.push(left);
            children.push(right);
            proof {
                crate::ast::lemma_asts_view_push(Seq::<AstNode>::empty(), children@[0]);
                crate::ast::lemma_asts_view_push(children@.drop_last(), children@[1]);
                assert(children@.drop_last() =~= Seq::<AstNode>::empty().push(children@[0]));
                assert(asts_view(children@) =~= seq![leftm, rm]);
            }
            Ok(AstNode::with_children(NodeType::Operator, Some(eq_token), children))
        } else if ty == TokenType::If {
            self.advance();
            let cond = match self.expression(crate::ast::Precedence(PREC_OR)) {
                Ok(n) => n,
                Err(e) => {
                    return Err(e);
                },
            };
            match self.expect(TokenType::Else) {
                Ok(_) => (),
                Err(e) => {
                    return Err(e);
                },
            }
            let else_expr = match self.expression(crate::ast::Precedence(PREC_TERNARY)) {
                Ok(n) => n,
                Err(e) => {
                    return Err(e);
                },
            };
            let ghost cm = cond@;
            let ghost em = else_expr@;
            let mut children: Vec<AstNode> = Vec::new();
            children.push(cond);
            children.push(left);
            children.push(else_expr);
            proof {
                crate::ast::lemma_asts_view_push(Seq::<AstNode>::empty(), children@[0]);
                crate::ast::lemma_asts_view_push(
                    Seq::<AstNode>::empty().push(children@[0]),
                    children@[1],
                );
                crate::ast::lemma_asts_view_push(
                    Seq::<AstNode>::empty().push(children@[0]).push(children@[1]),
                    children@[2],
                );
                assert(children@ =~= Seq::<AstNode>::empty().push(children@[0]).push(
                    children@[1],
                ).push(children@[2]));
                assert(asts_view(children@) =~= seq![cm, leftm, em]);
            }
            Ok(AstNode::with_children(NodeType::Ternary, None, children))
        } else if ty == TokenType::Dot {
            self.advance();
            let member = match self.expect(TokenType::Identifier) {
                Ok(t) => t,
                Err(e) => {
                    return Err(e);
                },
            };
            let mut children: Vec<AstNode> = Vec::new();
            children.push(left);
            proof {
                crate::ast::lemma_asts_view_push(Seq::<AstNode>::empty(), children@[0]);
                assert(asts_view(children@) =~= seq![leftm]);
            }
            Ok(AstNode::with_children(NodeType::MemberAccess, Some(member), children))
        } else if ty == TokenType::Lparen {
            self.parse_function_call_with_func(left)
        } else if self.can_start_expression() {
            let arg = match self.expression(crate::ast::Precedence(PREC_TERM)) {
                Ok(n) => n,
                Err(e) => {
                    return Err(e);
                },
            };
            let ghost am = arg@;
            let mut children: Vec<AstNode> = Vec::new();
            children.push(left);
            children.push(arg);
            proof {
                crate::ast::lemma_asts_view_push(Seq::<AstNode>::empty(), children@[0]);
                crate::ast::lemma_asts_view_push(children@.drop_last(), children@[1]);
                assert(children@.drop_last() =~= Seq::<AstNode>::empty().push(children@[0]));
                assert(asts_view(children@) =~= seq![leftm, am]);
            }
            Ok(AstNode::with_children(NodeType::FunctionCall, None, children))
        } else {
            proof {
                assert(spec_token_prec(ty) == PREC_LOWEST);
                assert(false);
            }
            vstd::pervasive::unreached()
        }
    }

    fn parse_function_call_with_func(&mut self, func: AstNode) -> (r: Result<AstNode, ParseError>)
        requires
            old(self).wf(),
        ensures
            final(self).wf(),
            final(self).toks() == old(self).toks(),
            match r {
                Ok(n) => spec_call_args(old(self).toks(), old(self).pos(), func@) == Ok::<
                    _,
                    ParseErrModel,
                >((n@, final(self).pos())) && old(self).pos() < final(self).pos(),
                Err(e) => spec_call_args(old(self).toks(), old(self).pos(), func@) == Err::<
                    (AstModel, int),
                    _,
                >(e@),
            },
        decreases self.tokens@.len() - self.position, 0int,
    {
        let ghost toks = self.toks();
        let ghost p0 = self.pos();
        let ghost fm = func@;
        match self.expect(TokenType::Lparen) {
            Ok(_) => (),
            Err(e) => {
                return Err(e);
            },
        }
        let mut args = AstNode::new(NodeType::Arguments, None);
        if !self.check(TokenType::Rparen) {
            let ghost pe = self.pos();
            loop
                invariant_except_break
                    prepend_elems(args@.children, spec_arg_elems(toks, self.pos()))
                        == spec_arg_elems(toks, pe),
                invariant
                    self.wf(),
                    toks == old(self).toks(),
                    p0 == old(self).pos(),
                    pe == p0 + 1,
                    fm == func@,
                    spec_check(toks, p0, TokenType::Lparen),
                    !spec_check(toks, pe, TokenType::Rparen),
                    self.toks() == toks,
                    p0 < self.pos(),
                    args@.kind == NodeType::Arguments,
                    args@.token is None,
                ensures
                    self.wf(),
                    self.toks() == toks,
                    p0 < self.pos(),
                    args@.kind == NodeType::Arguments,
                    args@.token is None,
                    spec_arg_elems(toks, pe) == Ok::<_, ParseErrModel>((
                        args@.children,
                        self.pos(),
                    )),
                decreases self.toks().len() - self.pos(),
            {
                let ghost pos_b = self.pos();
                let ghost ch_b = args@.children;
                let arg = match self.expression(
                    crate::ast::Precedence(PREC_COMMA + 1),
                ) {
                    Ok(n) => n,
                    Err(e) => {
                        proof {
                            assert(spec_arg_elems(toks, pos_b) == Err::<(Seq<AstModel>, int), _>(
                                e@,
                            ));
                        }
                        return Err(e);
                    },
                };
                let ghost am = arg@;
                args.add_child(arg);
                if self.check(TokenType::Comma) {
                    self.advance();
                    proof {
                        assert(spec_arg_elems(toks, pos_b) == prepend_elems(
                            seq![am],
                            spec_arg_elems(toks, self.pos()),
                        ));
                        lemma_prepend_elems_assoc(ch_b, seq![am], spec_arg_elems(toks, self.pos()));
                        assert(ch_b + seq![am] =~= args@.children);
                    }
                } else {
                    proof {
                        assert(spec_arg_elems(toks, pos_b) == Ok::<_, ParseErrModel>((
                            seq![am],
                            self.pos(),
                        )));
                        assert(ch_b + seq![am] =~= args@.children);
                    }
                    break;
                }
            }
        }
        match self.expect(TokenType::Rparen) {
            Ok(_) => (),
            Err(e) => {
                return Err(e);
            },
        }
        let ghost argsm = args@;
        let mut children: Vec<AstNode> = Vec::new();
        children.push(func);
        children.push(args);
        proof {
            crate::ast::lemma_asts_view_push(Seq::<AstNode>::empty(), children@[0]);
            crate::ast::lemma_asts_view_push(children@.drop_last(), children@[1]);
            assert(children@.drop_last() =~= Seq::<AstNode>::empty().push(children@[0]));
            assert(asts_view(children@) =~= seq![fm, argsm]);
        }
        Ok(AstNode::with_children(NodeType::FunctionCall, None, children))
    }

    fn parse_list(&mut self) -> (r: Result<AstNode, ParseError>)
        requires
            old(self).wf(),
        ensures
            final(self).wf(),
            final(self).toks() == old(self).toks(),
            match r {
                Ok(n) => spec_list(old(self).toks(), old(self).pos()) == Ok::<_, ParseErrModel>(
                    (n@, final(self).pos()),
                ) && old(self).pos() < final(self).pos(),
                Err(e) => spec_list(old(self).toks(), old(self).pos()) == Err::<
                    (AstModel, int),
                    _,
                >(e@),
            },
        decreases self.tokens@.len() - self.position, 0int,
    {
        let ghost toks = self.toks();
        let ghost p0 = self.pos();
        match self.expect(TokenType::Lbrace) {
            Ok(_) => (),
            Err(e) => {
                return Err(e);
            },
        }
        let mut list_node = AstNode::new(NodeType::List, None);
        if !self.check(TokenType::Rbrace) {
            let ghost pe = self.pos();
            loop
                invariant_except_break
                    prepend_elems(list_node@.children, spec_arg_elems(toks, self.pos()))
                        == spec_arg_elems(toks, pe),
                invariant
                    self.wf(),
                    toks == old(self).toks(),
                    p0 == old(self).pos(),
                    pe == p0 + 1,
                    spec_check(toks, p0, TokenType::Lbrace),
                    !spec_check(toks, pe, TokenType::Rbrace),
                    self.toks() == toks,
                    p0 < self.pos(),
                    list_node@.kind == NodeType::List,
                    list_node@.token is None,
                ensures
                    self.wf(),
                    self.toks() == toks,
                    p0 < self.pos(),
                    list_node@.kind == NodeType::List,
                    list_node@.token is None,
                    spec_arg_elems(toks, pe) == Ok::<_, ParseErrModel>((
                        list_node@.children,
                        self.pos(),
                    )),
                decreases self.toks().len() - self.pos(),
            {
                let ghost pos_b = self.pos();
                let ghost ch_b = list_node@.children;
                let elem = match self.expression(
                    crate::ast::Precedence(PREC_COMMA + 1),
                ) {
                    Ok(n) => n,
                    Err(e) => {
                        proof {
                            assert(spec_arg_elems(toks, pos_b) == Err::<(Seq<AstModel>, int), _>(
                                e@,
                            ));
                        }
                        return Err(e);
                    },
                };
                let ghost am = elem@;
                list_node.add_child(elem);
                if self.check(TokenType::Comma) {
                    self.advance();
                    proof {
                        assert(spec_arg_elems(toks, pos_b) == prepend_elems(
                            seq![am],
                            spec_arg_elems(toks, self.pos()),
                        ));
                        lemma_prepend_elems_assoc(ch_b, seq![am], spec_arg_elems(toks, self.pos()));
                        assert(ch_b + seq![am] =~= list_node@.children);
                    }
                } else {
                    proof {
                        assert(spec_arg_elems(toks, pos_b) == Ok::<_, ParseErrModel>((
                            seq![am],
                            self.pos(),
                        )));
                        assert(ch_b + seq![am] =~= list_node@.children);
                    }
                    break;
                }
            }
        }
        match self.expect(TokenType::Rbrace) {
            Ok(_) => (),
            Err(e) => {
                return Err(e);
            },
        }
        Ok(list_node)
    }

    fn parse_dict(&mut self) -> (r: Result<AstNode, ParseError>)
        requires
            old(self).wf(),
        ensures
            final(self).wf(),
            final(self).toks() == old(self).toks(),
            match r {
                Ok(n) => spec_dict(old(self).toks(), old(self).pos()) == Ok::<_, ParseErrModel>(
                    (n@, final(self).pos()),
                ) && old(self).pos() < final(self).pos(),
                Err(e) => spec_dict(old(self).toks(), old(self).pos()) == Err::<
                    (AstModel, int),
                    _,
                >(e@),
            },
        decreases self.tokens@.len() - self.position, 0int,
    {
        let ghost toks = self.toks();
        let ghost p0 = self.pos();
        match self.expect(TokenType::Lsquare) {
            Ok(_) => (),
            Err(e) => {
                return Err(e);
            },
        }
        let mut dict_node = AstNode::new(NodeType::Dict, None);
        if !self.check(TokenType::Rsquare) {
            let ghost pe = self.pos();
            loop
                invariant_except_break
                    prepend_elems(dict_node@.children, spec_dict_pairs(toks, self.pos()))
                        == spec_dict_pairs(toks, pe),
                invariant
                    self.wf(),
                    toks == old(self).toks(),
                    p0 == old(self).pos(),
                    pe == p0 + 1,
                    spec_check(toks, p0, TokenType::Lsquare),
                    !spec_check(toks, pe, TokenType::Rsquare),
                    self.toks() == toks,
                    p0 < self.pos(),
                    dict_node@.kind == NodeType::Dict,
                    dict_node@.token is None,
                ensures
                    self.wf(),
                    self.toks() == toks,
                    p0 < self.pos(),
                    dict_node@.kind == NodeType::Dict,
                    dict_node@.token is None,
                    spec_dict_pairs(toks, pe) == Ok::<_, ParseErrModel>((
                        dict_node@.children,
                        self.pos(),
                    )),
                decreases self.toks().len() - self.pos(),
            {
                let ghost pos_b = self.pos();
                let ghost ch_b = dict_node@.children;
                let key = match self.expression(
                    crate::ast::Precedence(PREC_COMMA + 1),
                ) {
                    Ok(n) => n,
                    Err(e) => {
                        proof {
                            assert(spec_dict_pairs(toks, pos_b) == Err::<(Seq<AstModel>, int), _>(
                                e@,
                            ));
                        }
                        return Err(e);
                    },
                };
                match self.expect(TokenType::Colon) {
                    Ok(_) => (),
                    Err(e) => {
                        return Err(e);
                    },
                }
                let value = match self.expression(
                    crate::ast::Precedence(PREC_COMMA + 1),
                ) {
                    Ok(n) => n,
                    Err(e) => {
                        return Err(e);
                    },
                };
                let ghost km = key@;
                let ghost vm = value@;
                let mut pair_children: Vec<AstNode> = Vec::new();
                pair_children.push(key);
                pair_children.push(value);
                proof {
                    crate::ast::lemma_asts_view_push(Seq::<AstNode>::empty(), pair_children@[0]);
                    crate::ast::lemma_asts_view_push(pair_children@.drop_last(), pair_children@[1]);
                    assert(pair_children@.drop_last() =~= Seq::<AstNode>::empty().push(
                        pair_children@[0],
                    ));
                    assert(asts_view(pair_children@) =~= seq![km, vm]);
                }
                let pair = AstNode::with_children(NodeType::Expression, None, pair_children);
                let ghost pm = pair@;
                dict_node.add_child(pair);
                if self.check(TokenType::Comma) {
                    self.advance();
                    proof {
                        assert(spec_dict_pairs(toks, pos_b) == prepend_elems(
                            seq![pm],
                            spec_dict_pairs(toks, self.pos()),
                        ));
                        lemma_prepend_elems_assoc(
                            ch_b,
                            seq![pm],
                            spec_dict_pairs(toks, self.pos()),
                        );
                        assert(ch_b + seq![pm] =~= dict_node@.children);
                    }
                } else {
                    proof {
                        assert(spec_dict_pairs(toks, pos_b) == Ok::<_, ParseErrModel>((
                            seq![pm],
                            self.pos(),
                        )));
                        assert(ch_b + seq![pm] =~= dict_node@.children);
                    }
                    break;
                }
            }
        }
        match self.expect(TokenType::Rsquare) {
            Ok(_) => (),
            Err(e) => {
                return Err(e);
            },
        }
        Ok(dict_node)
    }

    /// Parses the whole token sequence into one `CompilationUnit` tree:
    /// exactly the tree of [`spec_parse`] on these tokens, or its first
    /// parse failure.
    #[verifier::rlimit(50)]
    pub fn parse(&mut self) -> (r: Result<AstNode, ParseError>)
        requires
            old(self).wf(),
            old(self).pos() == 0,
        ensures
            match r {
                Ok(n) => spec_parse(old(self).toks()) == Ok::<_, ParseErrModel>(n@),
                Err(e) => spec_parse(old(self).toks()) == Err::<AstModel, _>(e@),
            },
    {
        let ghost toks = self.toks();
        let mut root = AstNode::new(NodeType::CompilationUnit, None);
        proof {
            assert(Seq::<AstModel>::empty() + spec_statements(toks, 0)->Ok_0.0 =~= spec_statements(
                toks,
                0,
            )->Ok_0.0);
        }
        loop
            invariant_except_break
                prepend_elems(root@.children, spec_statements(toks, self.pos()))
                    == spec_statements(toks, 0),
            invariant
                self.wf(),
                toks == old(self).toks(),
                self.toks() == toks,
                0 <= self.pos(),
                root@.kind == NodeType::CompilationUnit,
                root@.token is None,
            ensures
                root@.kind == NodeType::CompilationUnit,
                root@.token is None,
                spec_statements(toks, 0) == Ok::<_, ParseErrModel>((root@.children, self.pos())),
            decreases self.toks().len() - self.pos(),
        {
            if self.is_at_end() {
                proof {
                    assert(root@.children + Seq::<AstModel>::empty() =~= root@.children);
                }
                break;
            }
            let ghost pos_b = self.pos();
            self.skip_newlines();
            proof {
                lemma_skip_newlines_bounds(toks, pos_b);
            }
            if self.is_at_end() {
                proof {
                    assert(root@.children + Seq::<AstModel>::empty() =~= root@.children);
                }
                break;
            }
            let ghost ch_b = root@.children;
            let stmt = match self.statement() {
                Ok(n) => n,
                Err(e) => {
                    proof {
                        assert(spec_statements(toks, pos_b) == Err::<(Seq<AstModel>, int), _>(e@));
                    }
                    return Err(e);
                },
            };
            let ghost sm = stmt@;
            root.add_child(stmt);
            let ghost p2 = self.pos();
            self.skip_newlines();
            proof {
                lemma_skip_newlines_bounds(toks, p2);
                assert(spec_statements(toks, pos_b) == prepend_elems(
                    seq![sm],
                    spec_statements(toks, self.pos()),
                ));
                lemma_prepend_elems_assoc(ch_b, seq![sm], spec_statements(toks, self.pos()));
                assert(ch_b + seq![sm] =~= root@.children);
            }
        }
        Ok(root)
    }

    fn statement(&mut self) -> (r: Result<AstNode, ParseError>)
        requires
            old(self).wf(),
        ensures
            final(self).wf(),
            final(self).toks() == old(self).toks(),
            match r {
                Ok(n) => spec_statement(old(self).toks(), old(self).pos()) == Ok::<
                    _,
                    ParseErrModel,
                >((n@, final(self).pos())) && old(self).pos() < final(self).pos(),
                Err(e) => spec_statement(old(self).toks(), old(self).pos()) == Err::<
                    (AstModel, int),
                    _,
                >(e@),
            },
        decreases self.tokens@.len() - self.position, 5int,
    {
        let ghost toks = self.toks();
        let ghost p0 = self.pos();
        let ty = self.current().token_type;
        if ty == TokenType::Fn {
            self.function_def()
        } else if ty == TokenType::If {
            self.if_statement()
        } else if ty == TokenType::When {
            self.when_statement()
        } else if ty == TokenType::For {
            self.for_loop()
        } else if ty == TokenType::While {
            self.while_loop()
        } else {
            let expr = match self.expression(crate::ast::Precedence(PREC_LOWEST)) {
                Ok(n) => n,
                Err(e) => {
                    return Err(e);
                },
            };
            let ghost em = expr@;
            let mut stmt = AstNode::new(NodeType::Statement, None);
            stmt.add_child(expr);
            proof {
                assert(stmt@.children =~= seq![em]);
            }
            Ok(stmt)
        }
    }

    fn function_def(&mut self) -> (r: Result<AstNode, ParseError>)
        requires
            old(self).wf(),
        ensures
            final(self).wf(),
            final(self).toks() == old(self).toks(),
            match r {
                Ok(n) => spec_function_def(old(self).toks(), old(self).pos()) == Ok::<
                    _,
                    ParseErrModel,
                >((n@, final(self).pos())) && old(self).pos() < final(self).pos(),
                Err(e) => spec_function_def(old(self).toks(), old(self).pos()) == Err::<
                    (AstModel, int),
                    _,
                >(e@),
            },
        decreases self.tokens@.len() - self.position, 0int,
    {
        let ghost toks = self.toks();
        let ghost p0 = self.pos();
        match self.expect(TokenType::Fn) {
            Ok(_) => (),
            Err(e) => {
                return Err(e);
            },
        }
        let name = match self.expect(TokenType::Identifier) {
            Ok(t) => t,
            Err(e) => {
                return Err(e);
            },
        };
        let params = match self.parameter_list() {
            Ok(v) => v,
            Err(e) => {
                return Err(e);
            },
        };
        let ghost pm = asts_view(params@);
        let params_node = AstNode::with_children(NodeType::Arguments, None, params);
        match self.expect(TokenType::Colon) {
            Ok(_) => (),
            Err(e) => {
                return Err(e);
            },
        }
        let body = match self.block() {
            Ok(n) => n,
            Err(e) => {
                return Err(e);
            },
        };
        let ghost bm = body@;
        let mut func_node = AstNode::new(NodeType::Function, Some(name));
        func_node.add_child(params_node);
        func_node.add_child(body);
        proof {
            assert(func_node@.children =~= seq![node(NodeType::Arguments, None, pm), bm]);
        }
        Ok(func_node)
    }

    fn parameter_list(&mut self) -> (r: Result<Vec<AstNode>, ParseError>)
        requires
            old(self).wf(),
        ensures
            final(self).wf(),
            final(self).toks() == old(self).toks(),
            match r {
                Ok(v) => spec_fn_params(old(self).toks(), old(self).pos()) == Ok::<
                    _,
                    ParseErrModel,
                >((asts_view(v@), final(self).pos())) && old(self).pos() <= final(self).pos(),
                Err(e) => spec_fn_params(old(self).toks(), old(self).pos()) == Err::<
                    (Seq<AstModel>, int),
                    _,
                >(e@),
            },
    {
        let ghost toks = self.toks();
        let ghost p0 = self.pos();
        let mut v: Vec<AstNode> = Vec::new();
        proof {
            assert(asts_view(v@) =~= Seq::<AstModel>::empty());
            assert(Seq::<AstModel>::empty() + spec_fn_params(toks, p0)->Ok_0.0 =~= spec_fn_params(
                toks,
                p0,
            )->Ok_0.0);
        }
        loop
            invariant_except_break
                prepend_elems(asts_view(v@), spec_fn_params(toks, self.pos())) == spec_fn_params(
                    toks,
                    p0,
                ),
            invariant
                self.wf(),
                toks == old(self).toks(),
                p0 == old(self).pos(),
                self.toks() == toks,
                p0 <= self.pos(),
            ensures
                self.wf(),
                self.toks() == toks,
                p0 <= self.pos(),
                spec_fn_params(toks, p0) == Ok::<_, ParseErrModel>((asts_view(v@), self.pos())),
            decreases self.toks().len() - self.pos(),
        {
            let ghost pos_b = self.pos();
            let ghost ch_b = asts_view(v@);
            if self.check(TokenType::Colon) || self.is_at_end() {
                proof {
                    assert(ch_b + Seq::<AstModel>::empty() =~= ch_b);
                }
                break;
            }
            let param = match self.expect(TokenType::Identifier) {
                Ok(t) => t,
                Err(e) => {
                    proof {
                        assert(spec_fn_params(toks, pos_b) == Err::<(Seq<AstModel>, int), _>(e@));
                    }
                    return Err(e);
                },
            };
            let child = AstNode::new(NodeType::Identifier, Some(param));
            let ghost vb = v@;
            v.push(child);
            if self.check(TokenType::Comma) {
                self.advance();
            }
            proof {
                crate::ast::lemma_asts_view_push(vb, v@.last());
                assert(v@ =~= vb.push(v@.last()));
                let chm = v@.last()@;
                assert(spec_fn_params(toks, pos_b) == prepend_elems(
                    seq![chm],
                    spec_fn_params(toks, self.pos()),
                ));
                lemma_prepend_elems_assoc(ch_b, seq![chm], spec_fn_params(toks, self.pos()));
                assert(ch_b + seq![chm] =~= asts_view(v@));
            }
        }
        Ok(v)
    }

    #[verifier::rlimit(50)]
    fn if_statement(&mut self) -> (r: Result<AstNode, ParseError>)
        requires
            old(self).wf(),
        ensures
            final(self).wf(),
            final(self).toks() == old(self).toks(),
            match r {
                Ok(n) => spec_if_statement(old(self).toks(), old(self).pos()) == Ok::<
                    _,
                    ParseErrModel,
                >((n@, final(self).pos())) && old(self).pos() < final(self).pos(),
                Err(e) => spec_if_statement(old(self).toks(), old(self).pos()) == Err::<
                    (AstModel, int),
                    _,
                >(e@),
            },
        decreases self.tokens@.len() - self.position, 0int,
    {
        let ghost toks = self.toks();
        let ghost p0 = self.pos();
        let if_token = match self.expect(TokenType::If) {
            Ok(t) => t,
            Err(e) => {
                return Err(e);
            },
        };
        let cond = match self.expression(crate::ast::Precedence(PREC_LOWEST)) {
            Ok(n) => n,
            Err(e) => {
                return Err(e);
            },
        };
        match self.expect(TokenType::Colon) {
            Ok(_) => (),
            Err(e) => {
                return Err(e);
            },
        }
        let then_block = match self.block() {
            Ok(n) => n,
            Err(e) => {
                return Err(e);
            },
        };
        let clauses = match self.elseif_clauses() {
            Ok(v) => v,
            Err(e) => {
                return Err(e);
            },
        };
        let ghost cm = cond@;
        let ghost tm = then_block@;
        let ghost clm = asts_view(clauses@);
        let mut children: Vec<AstNode> = Vec::new();
        children.push(cond);
        children.push(then_block);
        let mut clauses_vec = clauses;
        let ghost cv = clauses_vec@;
        children.append(&mut clauses_vec);
        proof {
            assert(children@.subrange(2, children@.len() as int) =~= cv);
            crate::ast::lemma_asts_view_concat(
                Seq::<AstNode>::empty().push(children@[0]).push(children@[1]),
                children@.subrange(2, children@.len() as int),
            );
            assert(children@ =~= Seq::<AstNode>::empty().push(children@[0]).push(children@[1])
                + children@.subrange(2, children@.len() as int));
            crate::ast::lemma_asts_view_push(Seq::<AstNode>::empty(), children@[0]);
            crate::ast::lemma_asts_view_push(
                Seq::<AstNode>::empty().push(children@[0]),
                children@[1],
            );
            assert(asts_view(children@) =~= seq![cm, tm] + clm);
        }
        if self.check(TokenType::Else) {
            self.advance();
            match self.expect(TokenType::Colon) {
                Ok(_) => (),
                Err(e) => {
                    return Err(e);
                },
            }
            let else_block = match self.block() {
                Ok(n) => n,
                Err(e) => {
                    return Err(e);
                },
            };
            let ghost em = else_block@;
            let ghost chb = children@;
            children.push(else_block);
            proof {
                crate::ast::lemma_asts_view_push(chb, children@.last());
                assert(children@ =~= chb.push(children@.last()));
                assert(asts_view(children@) =~= (seq![cm, tm] + clm) + seq![em]);
                assert((seq![cm, tm] + clm) + seq![em] =~= (seq![cm, tm] + clm).push(em));
            }
            Ok(AstNode::with_children(NodeType::IfStatement, Some(if_token), children))
        } else {
            Ok(AstNode::with_children(NodeType::IfStatement, Some(if_token), children))
        }
    }

    fn elseif_clauses(&mut self) -> (r: Result<Vec<AstNode>, ParseError>)
        requires
            old(self).wf(),
        ensures
            final(self).wf(),
            final(self).toks() == old(self).toks(),
            match r {
                Ok(v) => spec_elseif_clauses(old(self).toks(), old(self).pos()) == Ok::<
                    _,
                    ParseErrModel,
                >((asts_view(v@), final(self).pos())) && old(self).pos() <= final(self).pos(),
                Err(e) => spec_elseif_clauses(old(self).toks(), old(self).pos()) == Err::<
                    (Seq<AstModel>, int),
                    _,
                >(e@),
            },
        decreases self.tokens@.len() - self.position, 0int,
    {
        let ghost toks = self.toks();
        let ghost p0 = self.pos();
        let mut v: Vec<AstNode> = Vec::new();
        proof {
            assert(asts_view(v@) =~= Seq::<AstModel>::empty());
            assert(Seq::<AstModel>::empty() + spec_elseif_clauses(toks, p0)->Ok_0.0
                =~= spec_elseif_clauses(toks, p0)->Ok_0.0);
        }
        loop
            invariant_except_break
                prepend_elems(asts_view(v@), spec_elseif_clauses(toks, self.pos()))
                    == spec_elseif_clauses(toks, p0),
            invariant
                self.wf(),
                toks == old(self).toks(),
                p0 == old(self).pos(),
                self.toks() == toks,
                p0 <= self.pos(),
            ensures
                self.wf(),
                self.toks() == toks,
                p0 <= self.pos(),
                spec_elseif_clauses(toks, p0) == Ok::<_, ParseErrModel>((
                    asts_view(v@),
                    self.pos(),
                )),
            decreases self.toks().len() - self.pos(),
        {
            let ghost pos_b = self.pos();
            let ghost ch_b = asts_view(v@);
            if !self.check(TokenType::Elseif) {
                proof {
                    assert(ch_b + Seq::<AstModel>::empty() =~= ch_b);
                }
                break;
            }
            self.advance();
            let cond = match self.expression(crate::ast::Precedence(PREC_LOWEST)) {
                Ok(n) => n,
                Err(e) => {
                    proof {
                        assert(spec_elseif_clauses(toks, pos_b) == Err::<
                            (Seq<AstModel>, int),
                            _,
                        >(e@));
                    }
                    return Err(e);
                },
            };
            match self.expect(TokenType::Colon) {
                Ok(_) => (),
                Err(e) => {
                    proof {
                        assert(spec_elseif_clauses(toks, pos_b) == Err::<
                            (Seq<AstModel>, int),
                            _,
                        >(e@));
                    }
                    return Err(e);
                },
            }
            let b = match self.block() {
                Ok(n) => n,
                Err(e) => {
                    proof {
                        assert(spec_elseif_clauses(toks, pos_b) == Err::<
                            (Seq<AstModel>, int),
                            _,
                        >(e@));
                    }
                    return Err(e);
                },
            };
            let ghost condm = cond@;
            let ghost bm = b@;
            let mut clause = AstNode::new(NodeType::IfStatement, None);
            clause.add_child(cond);
            clause.add_child(b);
            proof {
                assert(clause@.children =~= seq![condm, bm]);
            }
            let ghost vb = v@;
            v.push(clause);
            proof {
                crate::ast::lemma_asts_view_push(vb, v@.last());
                assert(v@ =~= vb.push(v@.last()));
                let chm = v@.last()@;
                assert(spec_elseif_clauses(toks, pos_b) == prepend_elems(
                    seq![chm],
                    spec_elseif_clauses(toks, self.pos()),
                ));
                lemma_prepend_elems_assoc(ch_b, seq![chm], spec_elseif_clauses(toks, self.pos()));
                assert(ch_b + seq![chm] =~= asts_view(v@));
            }
        }
        Ok(v)
    }

    #[verifier::rlimit(50)]
    fn when_statement(&mut self) -> (r: Result<AstNode, ParseError>)
        requires
            old(self).wf(),
        ensures
            final(self).wf(),
            final(self).toks() == old(self).toks(),
            match r {
                Ok(n) => spec_when_statement(old(self).toks(), old(self).pos()) == Ok::<
                    _,
                    ParseErrModel,
                >((n@, final(self).pos())) && old(self).pos() < final(self).pos(),
                Err(e) => spec_when_statement(old(self).toks(), old(self).pos()) == Err::<
                    (AstModel, int),
                    _,
                >(e@),
            },
        decreases self.tokens@.len() - self.position, 0int,
    {
        let ghost toks = self.toks();
        let ghost p0 = self.pos();
        let when_token = match self.expect(TokenType::When) {
            Ok(t) => t,
            Err(e) => {
                return Err(e);
            },
        };
        let subject = match self.expression(crate::ast::Precedence(PREC_LOWEST)) {
            Ok(n) => n,
            Err(e) => {
                return Err(e);
            },
        };
        match self.expect(TokenType::Colon) {
            Ok(_) => (),
            Err(e) => {
                return Err(e);
            },
        }
        let ghost p3 = self.pos();
        self.skip_newlines();
        proof {
            lemma_skip_newlines_bounds(toks, p3);
        }
        match self.expect(TokenType::Indent) {
            Ok(_) => (),
            Err(e) => {
                return Err(e);
            },
        }
        let pats = match self.pattern_clauses() {
            Ok(v) => v,
            Err(e) => {
                return Err(e);
            },
        };
        match self.expect(TokenType::Dedent) {
            Ok(_) => (),
            Err(e) => {
                return Err(e);
            },
        }
        let ghost sm = subject@;
        let ghost psm = asts_view(pats@);
        let mut children: Vec<AstNode> = Vec::new();
        children.push(subject);
        let mut pats_vec = pats;
        let ghost pv = pats_vec@;
        children.append(&mut pats_vec);
        proof {
            assert(children@.subrange(1, children@.len() as int) =~= pv);
            crate::ast::lemma_asts_view_concat(
                Seq::<AstNode>::empty().push(children@[0]),
                children@.subrange(1, children@.len() as int),
            );
            assert(children@ =~= Seq::<AstNode>::empty().push(children@[0]) + children@.subrange(
                1,
                children@.len() as int,
            ));
            crate::ast::lemma_asts_view_push(Seq::<AstNode>::empty(), children@[0]);
            assert(asts_view(children@) =~= seq![sm] + psm);
        }
        Ok(AstNode::with_children(NodeType::WhenStatement, Some(when_token), children))
    }

    fn pattern_clauses(&mut self) -> (r: Result<Vec<AstNode>, ParseError>)
        requires
            old(self).wf(),
        ensures
            final(self).wf(),
            final(self).toks() == old(self).toks(),
            match r {
                Ok(v) => spec_patterns(old(self).toks(), old(self).pos()) == Ok::<
                    _,
                    ParseErrModel,
                >((asts_view(v@), final(self).pos())) && old(self).pos() <= final(self).pos(),
                Err(e) => spec_patterns(old(self).toks(), old(self).pos()) == Err::<
                    (Seq<AstModel>, int),
                    _,
                >(e@),
            },
        decreases self.tokens@.len() - self.position, 5int,
    {
        let ghost toks = self.toks();
        let ghost p0 = self.pos();
        let mut v: Vec<AstNode> = Vec::new();
        proof {
            assert(asts_view(v@) =~= Seq::<AstModel>::empty());
            assert(Seq::<AstModel>::empty() + spec_patterns(toks, p0)->Ok_0.0 =~= spec_patterns(
                toks,
                p0,
            )->Ok_0.0);
        }
        loop
            invariant_except_break
                prepend_elems(asts_view(v@), spec_patterns(toks, self.pos())) == spec_patterns(
                    toks,
                    p0,
                ),
            invariant
                self.wf(),
                toks == old(self).toks(),
                p0 == old(self).pos(),
                self.toks() == toks,
                p0 <= self.pos(),
            ensures
                self.wf(),
                self.toks() == toks,
                p0 <= self.pos(),
                spec_patterns(toks, p0) == Ok::<_, ParseErrModel>((asts_view(v@), self.pos())),
            decreases self.toks().len() - self.pos(),
        {
            let ghost pos_b = self.pos();
            let ghost ch_b = asts_view(v@);
            if self.check(TokenType::Dedent) || self.is_at_end() {
                proof {
                    assert(ch_b + Seq::<AstModel>::empty() =~= ch_b);
                }
                break;
            }
            let pat = match self.parse_pattern() {
                Ok(n) => n,
                Err(e) => {
                    proof {
                        assert(spec_patterns(toks, pos_b) == Err::<(Seq<AstModel>, int), _>(e@));
                    }
                    return Err(e);
                },
            };
            let ghost p1 = self.pos();
            self.skip_newlines();
            proof {
                lemma_skip_newlines_bounds(toks, p1);
            }
            let ghost vb = v@;
            v.push(pat);
            proof {
                crate::ast::lemma_asts_view_push(vb, v@.last());
                assert(v@ =~= vb.push(v@.last()));
                let chm = v@.last()@;
                assert(spec_patterns(toks, pos_b) == prepend_elems(
                    seq![chm],
                    spec_patterns(toks, self.pos()),
                ));
                lemma_prepend_elems_assoc(ch_b, seq![chm], spec_patterns(toks, self.pos()));
                assert(ch_b + seq![chm] =~= asts_view(v@));
            }
        }
        Ok(v)
    }

    fn parse_pattern(&mut self) -> (r: Result<AstNode, ParseError>)
        requires
            old(self).wf(),
        ensures
            final(self).wf(),
            final(self).toks() == old(self).toks(),
            match r {
                Ok(n) => spec_pattern(old(self).toks(), old(self).pos()) == Ok::<_, ParseErrModel>(
                    (n@, final(self).pos()),
                ) && old(self).pos() < final(self).pos(),
                Err(e) => spec_pattern(old(self).toks(), old(self).pos()) == Err::<
                    (AstModel, int),
                    _,
                >(e@),
            },
        decreases self.tokens@.len() - self.position, 4int,
    {
        let ghost toks = self.toks();
        let ghost p0 = self.pos();
        let guards = match self.pattern_guards() {
            Ok(v) => v,
            Err(e) => {
                return Err(e);
            },
        };
        match self.expect(TokenType::Colon) {
            Ok(_) => (),
            Err(e) => {
                return Err(e);
            },
        }
        let result = match self.expression(crate::ast::Precedence(PREC_LOWEST)) {
            Ok(n) => n,
            Err(e) => {
                return Err(e);
            },
        };
        let ghost gm = asts_view(guards@);
        let ghost rm = result@;
        let mut children = guards;
        let ghost chb = children@;
        children.push(result);
        proof {
            crate::ast::lemma_asts_view_push(chb, children@.last());
            assert(children@ =~= chb.push(children@.last()));
            assert(asts_view(children@) =~= gm + seq![rm]);
            assert(gm + seq![rm] =~= gm.push(rm));
        }
        Ok(AstNode::with_children(NodeType::Pattern, None, children))
    }

    fn pattern_guards(&mut self) -> (r: Result<Vec<AstNode>, ParseError>)
        requires
            old(self).wf(),
        ensures
            final(self).wf(),
            final(self).toks() == old(self).toks(),
            match r {
                Ok(v) => spec_pattern_guards(old(self).toks(), old(self).pos()) == Ok::<
                    _,
                    ParseErrModel,
                >((asts_view(v@), final(self).pos())) && old(self).pos() <= final(self).pos(),
                Err(e) => spec_pattern_guards(old(self).toks(), old(self).pos()) == Err::<
                    (Seq<AstModel>, int),
                    _,
                >(e@),
            },
        decreases self.tokens@.len() - self.position, 3int,
    {
        let ghost toks = self.toks();
        let ghost p0 = self.pos();
        let mut v: Vec<AstNode> = Vec::new();
        proof {
            assert(asts_view(v@) =~= Seq::<AstModel>::empty());
            assert(Seq::<AstModel>::empty() + spec_pattern_guards(toks, p0)->Ok_0.0
                =~= spec_pattern_guards(toks, p0)->Ok_0.0);
        }
        loop
            invariant_except_break
                prepend_elems(asts_view(v@), spec_pattern_guards(toks, self.pos()))
                    == spec_pattern_guards(toks, p0),
            invariant
                self.wf(),
                toks == old(self).toks(),
                p0 == old(self).pos(),
                self.toks() == toks,
                p0 <= self.pos(),
            ensures
                self.wf(),
                self.toks() == toks,
                p0 <= self.pos(),
                spec_pattern_guards(toks, p0) == Ok::<_, ParseErrModel>((
                    asts_view(v@),
                    self.pos(),
                )),
            decreases self.toks().len() - self.pos(),
        {
            let ghost pos_b = self.pos();
            let ghost ch_b = asts_view(v@);
            let g = match self.expression(crate::ast::Precedence(PREC_COMMA)) {
                Ok(n) => n,
                Err(e) => {
                    proof {
                        assert(spec_pattern_guards(toks, pos_b) == Err::<
                            (Seq<AstModel>, int),
                            _,
                        >(e@));
                    }
                    return Err(e);
                },
            };
            let ghost vb = v@;
            v.push(g);
            if self.check(TokenType::Or) {
                self.advance();
                proof {
                    crate::ast::lemma_asts_view_push(vb, v@.last());
                    assert(v@ =~= vb.push(v@.last()));
                    let chm = v@.last()@;
                    assert(spec_pattern_guards(toks, pos_b) == prepend_elems(
                        seq![chm],
                        spec_pattern_guards(toks, self.pos()),
                    ));
                    lemma_prepend_elems_assoc(
                        ch_b,
                        seq![chm],
                        spec_pattern_guards(toks, self.pos()),
                    );
                    assert(ch_b + seq![chm] =~= asts_view(v@));
                }
            } else {
                proof {
                    crate::ast::lemma_asts_view_push(vb, v@.last());
                    assert(v@ =~= vb.push(v@.last()));
                    let chm = v@.last()@;
                    assert(spec_pattern_guards(toks, pos_b) == Ok::<_, ParseErrModel>((
                        seq![chm],
                        self.pos(),
                    )));
                    assert(ch_b + seq![chm] =~= asts_view(v@));
                }
                break;
            }
        }
        Ok(v)
    }

    fn for_loop(&mut self) -> (r: Result<AstNode, ParseError>)
        requires
            old(self).wf(),
        ensures
            final(self).wf(),
            final(self).toks() == old(self).toks(),
            match r {
                Ok(n) => spec_for_loop(old(self).toks(), old(self).pos()) == Ok::<_, ParseErrModel>(
                    (n@, final(self).pos()),
                ) && old(self).pos() < final(self).pos(),
                Err(e) => spec_for_loop(old(self).toks(), old(self).pos()) == Err::<
                    (AstModel, int),
                    _,
                >(e@),
            },
        decreases self.tokens@.len() - self.position, 0int,
    {
        let ghost toks = self.toks();
        let ghost p0 = self.pos();
        let for_token = match self.expect(TokenType::For) {
            Ok(t) => t,
            Err(e) => {
                return Err(e);
            },
        };
        let var = match self.expect(TokenType::Identifier) {
            Ok(t) => t,
            Err(e) => {
                return Err(e);
            },
        };
        match self.expect(TokenType::In) {
            Ok(_) => (),
            Err(e) => {
                return Err(e);
            },
        }
        let iterable = match self.expression(crate::ast::Precedence(PREC_LOWEST)) {
            Ok(n) => n,
            Err(e) => {
                return Err(e);
            },
        };
        match self.expect(TokenType::Colon) {
            Ok(_) => (),
            Err(e) => {
                return Err(e);
            },
        }
        let body = match self.block() {
            Ok(n) => n,
            Err(e) => {
                return Err(e);
            },
        };
        let ghost vm = var@;
        let ghost im = iterable@;
        let ghost bm = body@;
        let mut for_node = AstNode::new(NodeType::ForLoop, Some(for_token));
        for_node.add_child(AstNode::new(NodeType::Identifier, Some(var)));
        for_node.add_child(iterable);
        for_node.add_child(body);
        proof {
            assert(for_node@.children =~= seq![
                node(NodeType::Identifier, Some(vm), Seq::empty()),
                im,
                bm,
            ]);
        }
        Ok(for_node)
    }

    fn while_loop(&mut self) -> (r: Result<AstNode, ParseError>)
        requires
            old(self).wf(),
        ensures
            final(self).wf(),
            final(self).toks() == old(self).toks(),
            match r {
                Ok(n) => spec_while_loop(old(self).toks(), old(self).pos()) == Ok::<
                    _,
                    ParseErrModel,
                >((n@, final(self).pos())) && old(self).pos() < final(self).pos(),
                Err(e) => spec_while_loop(old(self).toks(), old(self).pos()) == Err::<
                    (AstModel, int),
                    _,
                >(e@),
            },
        decreases self.tokens@.len() - self.position, 0int,
    {
        let ghost toks = self.toks();
        let ghost p0 = self.pos();
        let while_token = match self.expect(TokenType::While) {
            Ok(t) => t,
            Err(e) => {
                return Err(e);
            },
        };
        let cond = match self.expression(crate::ast::Precedence(PREC_LOWEST)) {
            Ok(n) => n,
            Err(e) => {
                return Err(e);
            },
        };
        match self.expect(TokenType::Colon) {
            Ok(_) => (),
            Err(e) => {
                return Err(e);
            },
        }
        let body = match self.block() {
            Ok(n) => n,
            Err(e) => {
                return Err(e);
            },
        };
        let ghost cm = cond@;
        let ghost bm = body@;
        let mut while_node = AstNode::new(NodeType::WhileLoop, Some(while_token));
        while_node.add_child(cond);
        while_node.add_child(body);
        proof {
            assert(while_node@.children =~= seq![cm, bm]);
        }
        Ok(while_node)
    }

    fn block(&mut self) -> (r: Result<AstNode, ParseError>)
        requires
            old(self).wf(),
        ensures
            final(self).wf(),
            final(self).toks() == old(self).toks(),
            match r {
                Ok(n) => spec_block(old(self).toks(), old(self).pos()) == Ok::<_, ParseErrModel>(
                    (n@, final(self).pos()),
                ) && old(self).pos() < final(self).pos(),
                Err(e) => spec_block(old(self).toks(), old(self).pos()) == Err::<
                    (AstModel, int),
                    _,
                >(e@),
            },
        decreases self.tokens@.len() - self.position, 6int,
    {
        let ghost toks = self.toks();
        let ghost p0 = self.pos();
        self.skip_newlines();
        proof {
            lemma_skip_newlines_bounds(toks, p0);
        }
        if self.check(TokenType::Indent) {
            self.advance();
            let stmts = match self.block_statements() {
                Ok(v) => v,
                Err(e) => {
                    return Err(e);
                },
            };
            match self.expect(TokenType::Dedent) {
                Ok(_) => (),
                Err(e) => {
                    return Err(e);
                },
            }
            Ok(AstNode::with_children(NodeType::Block, None, stmts))
        } else {
            let stmt = match self.statement() {
                Ok(n) => n,
                Err(e) => {
                    return Err(e);
                },
            };
            let ghost sm = stmt@;
            let mut block = AstNode::new(NodeType::Block, None);
            block.add_child(stmt);
            proof {
                assert(block@.children =~= seq![sm]);
            }
            Ok(block)
        }
    }

    fn block_statements(&mut self) -> (r: Result<Vec<AstNode>, ParseError>)
        requires
            old(self).wf(),
        ensures
            final(self).wf(),
            final(self).toks() == old(self).toks(),
            match r {
                Ok(v) => spec_block_stmts(old(self).toks(), old(self).pos()) == Ok::<
                    _,
                    ParseErrModel,
                >((asts_view(v@), final(self).pos())) && old(self).pos() <= final(self).pos(),
                Err(e) => spec_block_stmts(old(self).toks(), old(self).pos()) == Err::<
                    (Seq<AstModel>, int),
                    _,
                >(e@),
            },
        decreases self.tokens@.len() - self.position, 6int,
    {
        let ghost toks = self.toks();
        let ghost p0 = self.pos();
        let mut v: Vec<AstNode> = Vec::new();
        proof {
            assert(asts_view(v@) =~= Seq::<AstModel>::empty());
            assert(Seq::<AstModel>::empty() + spec_block_stmts(toks, p0)->Ok_0.0
                =~= spec_block_stmts(toks, p0)->Ok_0.0);
        }
        loop
            invariant_except_break
                prepend_elems(asts_view(v@), spec_block_stmts(toks, self.pos()))
                    == spec_block_stmts(toks, p0),
            invariant
                self.wf(),
                toks == old(self).toks(),
                p0 == old(self).pos(),
                self.toks() == toks,
                p0 <= self.pos(),
            ensures
                self.wf(),
                self.toks() == toks,
                p0 <= self.pos(),
                spec_block_stmts(toks, p0) == Ok::<_, ParseErrModel>((asts_view(v@), self.pos())),
            decreases self.toks().len() - self.pos(),
        {
            let ghost pos_b = self.pos();
            let ghost ch_b = asts_view(v@);
            if self.check(TokenType::Dedent) || self.is_at_end() {
                proof {
                    assert(ch_b + Seq::<AstModel>::empty() =~= ch_b);
                }
                break;
            }
            self.skip_newlines();
            proof {
                lemma_skip_newlines_bounds(toks, pos_b);
            }
            if self.check(TokenType::Dedent) {
                proof {
                    assert(ch_b + Seq::<AstModel>::empty() =~= ch_b);
                }
                break;
            }
            let stmt = match self.statement() {
                Ok(n) => n,
                Err(e) => {
                    proof {
                        assert(spec_block_stmts(toks, pos_b) == Err::<(Seq<AstModel>, int), _>(
                            e@,
                        ));
                    }
                    return Err(e);
                },
            };
            let ghost p2 = self.pos();
            self.skip_newlines();
            proof {
                lemma_skip_newlines_bounds(toks, p2);
            }
            let ghost vb = v@;
            v.push(stmt);
            proof {
                crate::ast::lemma_asts_view_push(vb, v@.last());
                assert(v@ =~= vb.push(v@.last()));
                let chm = v@.last()@;
                assert(spec_block_stmts(toks, pos_b) == prepend_elems(
                    seq![chm],
                    spec_block_stmts(toks, self.pos()),
                ));
                lemma_prepend_elems_assoc(ch_b, seq![chm], spec_block_stmts(toks, self.pos()));
                assert(ch_b + seq![chm] =~= asts_view(v@));
            }
        }
        Ok(v)
    }
}

/// Law: parsing is deterministic — two parses of the same token sequence
/// yield the same outcome, node for node.
pub proof fn lemma_parse_deterministic(
    toks: Seq<TokenModel>,
    r1: Result<AstModel, ParseErrModel>,
    r2: Result<AstModel, ParseErrModel>,
)
    requires
        r1 == spec_parse(toks),
        r2 == spec_parse(toks),
    ensures
        r1 == r2,
{
}

} // verus!

//! The grammar of the language, stated as functions from tokens to trees.
//!
//! Each function takes the tokens and the position of the next token, and
//! gives what it has read and the position behind it, or the error.

use vstd::prelude::*;
use crate::ast::{BinaryOp, ExprModel, LogicalOp, StmtModel, UnaryOp};
use crate::error::{ErrorModel, KindModel, Span};
use crate::token::{SpannedModel, Token, TokenModel};

verus! {

pub type Tokens = Seq<SpannedModel>;

/// What was read and the position behind it, or the error.
pub type Parsed<T> = Result<(T, int), ErrorModel>;

/// Whether the token at `pos` is of the kind of `k`.
pub open spec fn is_at(t: Tokens, pos: int, k: Token) -> bool {
    t[pos].token.kind == k.kind()
}

/// The position behind the token at `pos`; the last token is never left.
pub open spec fn next(t: Tokens, pos: int) -> int {
    if pos + 1 < t.len() {
        pos + 1
    } else {
        pos
    }
}

/// How many tokens are left from `pos` on.
pub open spec fn left(t: Tokens, pos: int) -> nat {
    if pos < t.len() {
        (t.len() - pos) as nat
    } else {
        0
    }
}

/// The error for a token that does not fit.
pub open spec fn unexpected(t: Tokens, pos: int, expected: Seq<char>) -> ErrorModel {
    ErrorModel {
        kind: KindModel::UnexpectedToken { expected, found: t[pos].token.describe() },
        span: Span { line: t[pos].line, column: t[pos].column },
    }
}

/// The position of the first token from `pos` on that is no line end.
pub open spec fn skip_newlines(t: Tokens, pos: int) -> int
    decreases left(t, pos),
{
    if 0 <= pos && pos + 1 < t.len() && is_at(t, pos, Token::Newline) {
        skip_newlines(t, pos + 1)
    } else {
        pos
    }
}

/// The position behind the token at `pos`, which must be of the kind of `k`.
pub open spec fn consume(t: Tokens, pos: int, k: Token) -> Result<int, ErrorModel> {
    if is_at(t, pos, k) {
        Ok(next(t, pos))
    } else {
        Err(unexpected(t, pos, k.text()))
    }
}

/// The name at `pos`.
pub open spec fn consume_identifier(t: Tokens, pos: int) -> Parsed<Seq<char>> {
    if is_at(t, pos, Token::Identifier(arbitrary())) {
        Ok((t[pos].token.text, next(t, pos)))
    } else {
        Err(unexpected(t, pos, "identifier"@))
    }
}

pub open spec fn comparison_op(kind: u8) -> Option<BinaryOp> {
    if kind == Token::Less.kind() {
        Some(BinaryOp::Less)
    } else if kind == Token::LessEqual.kind() {
        Some(BinaryOp::LessEqual)
    } else if kind == Token::Greater.kind() {
        Some(BinaryOp::Greater)
    } else if kind == Token::GreaterEqual.kind() {
        Some(BinaryOp::GreaterEqual)
    } else if kind == Token::EqualEqual.kind() {
        Some(BinaryOp::EqualEqual)
    } else if kind == Token::BangEqual.kind() {
        Some(BinaryOp::BangEqual)
    } else {
        None
    }
}

pub open spec fn addition_op(kind: u8) -> Option<BinaryOp> {
    if kind == Token::Plus.kind() {
        Some(BinaryOp::Add)
    } else if kind == Token::Minus.kind() {
        Some(BinaryOp::Sub)
    } else {
        None
    }
}

pub open spec fn multiplication_op(kind: u8) -> Option<BinaryOp> {
    if kind == Token::Star.kind() {
        Some(BinaryOp::Mul)
    } else if kind == Token::Slash.kind() {
        Some(BinaryOp::Div)
    } else if kind == Token::Percent.kind() {
        Some(BinaryOp::Mod)
    } else {
        None
    }
}

/// The name of the built-in function that a keyword stands for.
pub open spec fn builtin_word(kind: u8) -> Option<Seq<char>> {
    if kind == Token::Length.kind() {
        Some("length"@)
    } else if kind == Token::Push.kind() {
        Some("push"@)
    } else if kind == Token::Pop.kind() {
        Some("pop"@)
    } else if kind == Token::Reverse.kind() {
        Some("reverse"@)
    } else if kind == Token::Slice.kind() {
        Some("slice"@)
    } else if kind == Token::Range.kind() {
        Some("range"@)
    } else if kind == Token::Input.kind() {
        Some("input"@)
    } else if kind == Token::ReadFile.kind() {
        Some("read_file"@)
    } else if kind == Token::WriteFile.kind() {
        Some("write_file"@)
    } else if kind == Token::Keys.kind() {
        Some("keys"@)
    } else if kind == Token::Values.kind() {
        Some("values"@)
    } else if kind == Token::HasKey.kind() {
        Some("has_key"@)
    } else {
        None
    }
}

/// The expression that a single token is: a number, a string, `true`,
/// `false` or a name.
pub open spec fn literal(tok: TokenModel) -> Option<ExprModel> {
    if tok.kind == Token::Number(arbitrary()).kind() {
        Some(ExprModel::Number(tok.bits))
    } else if tok.kind == Token::Str(arbitrary()).kind() {
        Some(ExprModel::Str(tok.text))
    } else if tok.kind == Token::True.kind() {
        Some(ExprModel::Bool(true))
    } else if tok.kind == Token::False.kind() {
        Some(ExprModel::Bool(false))
    } else if tok.kind == Token::Identifier(arbitrary()).kind() {
        Some(ExprModel::Variable(tok.text))
    } else {
        None
    }
}

/// An expression: `or` binds least, then `and`, comparisons, `+` and `-`,
/// `*`, `/` and `%`, the signs `not`, `!` and `-`, and then indexing.
pub open spec fn parse_expression(t: Tokens, pos: int) -> Parsed<ExprModel>
    decreases left(t, pos), 40nat,
{
    parse_or(t, pos)
}

pub open spec fn parse_or(t: Tokens, pos: int) -> Parsed<ExprModel>
    decreases left(t, pos), 38nat,
{
    match parse_and(t, pos) {
        Ok((first, p)) => if p >= pos {
            or_rest(t, p, first)
        } else {
            Err(unexpected(t, pos, Seq::empty()))
        },
        Err(e) => Err(e),
    }
}

/// What follows the first operand of `or`: more operands, each after `or`.
pub open spec fn or_rest(t: Tokens, pos: int, first: ExprModel) -> Parsed<ExprModel>
    decreases left(t, pos), 37nat,
{
    if 0 <= pos && pos + 1 < t.len() && is_at(t, pos, Token::Or) {
        match parse_and(t, pos + 1) {
            Ok((right, p)) => if p > pos {
                or_rest(
                    t,
                    p,
                    ExprModel::Logical {
                        left: Box::new(first),
                        op: LogicalOp::Or,
                        right: Box::new(right),
                    },
                )
            } else {
                Err(unexpected(t, pos, Seq::empty()))
            },
            Err(e) => Err(e),
        }
    } else {
        Ok((first, pos))
    }
}

pub open spec fn parse_and(t: Tokens, pos: int) -> Parsed<ExprModel>
    decreases left(t, pos), 36nat,
{
    match parse_comparison(t, pos) {
        Ok((first, p)) => if p >= pos {
            and_rest(t, p, first)
        } else {
            Err(unexpected(t, pos, Seq::empty()))
        },
        Err(e) => Err(e),
    }
}

pub open spec fn and_rest(t: Tokens, pos: int, first: ExprModel) -> Parsed<ExprModel>
    decreases left(t, pos), 35nat,
{
    if 0 <= pos && pos + 1 < t.len() && is_at(t, pos, Token::And) {
        match parse_comparison(t, pos + 1) {
            Ok((right, p)) => if p > pos {
                and_rest(
                    t,
                    p,
                    ExprModel::Logical {
                        left: Box::new(first),
                        op: LogicalOp::And,
                        right: Box::new(right),
                    },
                )
            } else {
                Err(unexpected(t, pos, Seq::empty()))
            },
            Err(e) => Err(e),
        }
    } else {
        Ok((first, pos))
    }
}

pub open spec fn parse_comparison(t: Tokens, pos: int) -> Parsed<ExprModel>
    decreases left(t, pos), 34nat,
{
    match parse_addition(t, pos) {
        Ok((first, p)) => if p >= pos {
            comparison_rest(t, p, first)
        } else {
            Err(unexpected(t, pos, Seq::empty()))
        },
        Err(e) => Err(e),
    }
}

pub open spec fn comparison_rest(t: Tokens, pos: int, first: ExprModel) -> Parsed<ExprModel>
    decreases left(t, pos), 33nat,
{
    if 0 <= pos && pos + 1 < t.len() && comparison_op(t[pos].token.kind) is Some {
        match parse_addition(t, pos + 1) {
            Ok((right, p)) => if p > pos {
                comparison_rest(
                    t,
                    p,
                    ExprModel::Binary {
                        left: Box::new(first),
                        op: comparison_op(t[pos].token.kind)->0,
                        right: Box::new(right),
                    },
                )
            } else {
                Err(unexpected(t, pos, Seq::empty()))
            },
            Err(e) => Err(e),
        }
    } else {
        Ok((first, pos))
    }
}

pub open spec fn parse_addition(t: Tokens, pos: int) -> Parsed<ExprModel>
    decreases left(t, pos), 32nat,
{
    match parse_multiplication(t, pos) {
        Ok((first, p)) => if p >= pos {
            addition_rest(t, p, first)
        } else {
            Err(unexpected(t, pos, Seq::empty()))
        },
        Err(e) => Err(e),
    }
}

pub open spec fn addition_rest(t: Tokens, pos: int, first: ExprModel) -> Parsed<ExprModel>
    decreases left(t, pos), 31nat,
{
    if 0 <= pos && pos + 1 < t.len() && addition_op(t[pos].token.kind) is Some {
        match parse_multiplication(t, pos + 1) {
            Ok((right, p)) => if p > pos {
                addition_rest(
                    t,
                    p,
                    ExprModel::Binary {
                        left: Box::new(first),
                        op: addition_op(t[pos].token.kind)->0,
                        right: Box::new(right),
                    },
                )
            } else {
                Err(unexpected(t, pos, Seq::empty()))
            },
            Err(e) => Err(e),
        }
    } else {
        Ok((first, pos))
    }
}

pub open spec fn parse_multiplication(t: Tokens, pos: int) -> Parsed<ExprModel>
    decreases left(t, pos), 30nat,
{
    match parse_unary(t, pos) {
        Ok((first, p)) => if p >= pos {
            multiplication_rest(t, p, first)
        } else {
            Err(unexpected(t, pos, Seq::empty()))
        },
        Err(e) => Err(e),
    }
}

pub open spec fn multiplication_rest(t: Tokens, pos: int, first: ExprModel) -> Parsed<ExprModel>
    decreases left(t, pos), 29nat,
{
    if 0 <= pos && pos + 1 < t.len() && multiplication_op(t[pos].token.kind) is Some {
        match parse_unary(t, pos + 1) {
            Ok((right, p)) => if p > pos {
                multiplication_rest(
                    t,
                    p,
                    ExprModel::Binary {
                        left: Box::new(first),
                        op: multiplication_op(t[pos].token.kind)->0,
                        right: Box::new(right),
                    },
                )
            } else {
                Err(unexpected(t, pos, Seq::empty()))
            },
            Err(e) => Err(e),
        }
    } else {
        Ok((first, pos))
    }
}

pub open spec fn parse_unary(t: Tokens, pos: int) -> Parsed<ExprModel>
    decreases left(t, pos), 28nat,
{
    if 0 <= pos && pos + 1 < t.len() && (is_at(t, pos, Token::Not) || is_at(t, pos, Token::Bang)) {
        match parse_unary(t, pos + 1) {
            Ok((operand, p)) => Ok(
                (ExprModel::Unary { op: UnaryOp::Not, operand: Box::new(operand) }, p),
            ),
            Err(e) => Err(e),
        }
    } else if 0 <= pos && pos + 1 < t.len() && is_at(t, pos, Token::Minus) {
        match parse_unary(t, pos + 1) {
            Ok((operand, p)) => Ok(
                (ExprModel::Unary { op: UnaryOp::Neg, operand: Box::new(operand) }, p),
            ),
            Err(e) => Err(e),
        }
    } else {
        parse_postfix(t, pos)
    }
}

pub open spec fn parse_postfix(t: Tokens, pos: int) -> Parsed<ExprModel>
    decreases left(t, pos), 26nat,
{
    match parse_call(t, pos) {
        Ok((first, p)) => if p >= pos {
            postfix_rest(t, p, first)
        } else {
            Err(unexpected(t, pos, Seq::empty()))
        },
        Err(e) => Err(e),
    }
}

/// What follows an expression that is indexed: indexes in brackets.
pub open spec fn postfix_rest(t: Tokens, pos: int, first: ExprModel) -> Parsed<ExprModel>
    decreases left(t, pos), 25nat,
{
    if 0 <= pos && pos + 1 < t.len() && is_at(t, pos, Token::LeftBracket) {
        match parse_expression(t, pos + 1) {
            Ok((index, p)) => match consume(t, p, Token::RightBracket) {
                Ok(r2) => if r2 > pos {
                    postfix_rest(
                        t,
                        r2,
                        ExprModel::Index { object: Box::new(first), index: Box::new(index) },
                    )
                } else {
                    Err(unexpected(t, pos, Seq::empty()))
                },
                Err(e) => Err(e),
            },
            Err(e) => Err(e),
        }
    } else {
        Ok((first, pos))
    }
}

/// A term, which is a call when it is a name that an opening parenthesis follows.
pub open spec fn parse_call(t: Tokens, pos: int) -> Parsed<ExprModel>
    decreases left(t, pos), 24nat,
{
    match parse_term(t, pos) {
        Ok((term, p)) => if p > pos && is_at(t, p, Token::LParen) && term is Variable {
            match parse_call_args(t, p) {
                Ok((arguments, r2)) => Ok(
                    (ExprModel::Call { name: term->Variable_0, arguments, line: t[p].line }, r2),
                ),
                Err(e) => Err(e),
            }
        } else {
            Ok((term, p))
        },
        Err(e) => Err(e),
    }
}

/// Arguments in parentheses, separated by commas.
pub open spec fn parse_call_args(t: Tokens, pos: int) -> Parsed<Seq<ExprModel>>
    decreases left(t, pos), 23nat,
{
    if 0 <= pos && pos + 1 < t.len() && is_at(t, pos, Token::LParen) {
        if is_at(t, pos + 1, Token::RParen) {
            Ok((Seq::empty(), next(t, pos + 1)))
        } else {
            match list_rest(t, pos + 1, Seq::empty()) {
                Ok((arguments, p)) => match consume(t, p, Token::RParen) {
                    Ok(r2) => Ok((arguments, r2)),
                    Err(e) => Err(e),
                },
                Err(e) => Err(e),
            }
        }
    } else {
        match consume(t, pos, Token::LParen) {
            Ok(_) => Err(unexpected(t, pos, Seq::empty())),
            Err(e) => Err(e),
        }
    }
}

/// Expressions separated by commas, after those in `done`.
pub open spec fn list_rest(t: Tokens, pos: int, done: Seq<ExprModel>) -> Parsed<Seq<ExprModel>>
    decreases left(t, pos), 41nat,
{
    match parse_expression(t, pos) {
        Ok((e, p)) => if 0 <= pos < p && p + 1 < t.len() && is_at(t, p, Token::Comma) {
            list_rest(t, p + 1, done.push(e))
        } else {
            Ok((done.push(e), p))
        },
        Err(e) => Err(e),
    }
}

/// The entries of a dictionary literal, after those in `done`: each a
/// key, a colon and a value, separated by commas; line ends may stand
/// between them.
pub open spec fn entries_rest(t: Tokens, pos: int, done: Seq<(ExprModel, ExprModel)>) -> Parsed<
    Seq<(ExprModel, ExprModel)>,
>
    decreases left(t, pos), 42nat,
{
    let start = skip_newlines(t, pos);
    if start < pos {
        Err(unexpected(t, pos, Seq::empty()))
    } else {
        match parse_expression(t, start) {
            Ok((key, p)) => match consume(t, p, Token::Colon) {
                Ok(r2) => if r2 > start {
                    match parse_expression(t, r2) {
                        Ok((value, r3)) => {
                            let r4 = skip_newlines(t, r3);
                            if 0 <= pos < r4 && r4 + 1 < t.len() && is_at(t, r4, Token::Comma) {
                                entries_rest(t, r4 + 1, done.push((key, value)))
                            } else {
                                Ok((done.push((key, value)), r4))
                            }
                        },
                        Err(e) => Err(e),
                    }
                } else {
                    Err(unexpected(t, pos, Seq::empty()))
                },
                Err(e) => Err(e),
            },
            Err(e) => Err(e),
        }
    }
}

/// A literal, a name, a built-in function's name, an array or dictionary
/// literal, or an expression in parentheses.
pub open spec fn parse_term(t: Tokens, pos: int) -> Parsed<ExprModel>
    decreases left(t, pos), 22nat,
{
    let tok = t[pos].token;
    if literal(tok) is Some {
        Ok((literal(tok)->0, next(t, pos)))
    } else if builtin_word(tok.kind) is Some {
        Ok((ExprModel::Variable(builtin_word(tok.kind)->0), next(t, pos)))
    } else if 0 <= pos && pos + 1 < t.len() && is_at(t, pos, Token::LeftBracket) {
        if is_at(t, pos + 1, Token::RightBracket) {
            Ok((ExprModel::Array(Seq::empty()), next(t, pos + 1)))
        } else {
            match list_rest(t, pos + 1, Seq::empty()) {
                Ok((elements, p)) => match consume(t, p, Token::RightBracket) {
                    Ok(r2) => Ok((ExprModel::Array(elements), r2)),
                    Err(e) => Err(e),
                },
                Err(e) => Err(e),
            }
        }
    } else if 0 <= pos && pos + 1 < t.len() && is_at(t, pos, Token::LeftBrace) {
        let start = skip_newlines(t, pos + 1);
        if is_at(t, start, Token::RightBrace) {
            Ok((ExprModel::Dict(Seq::empty()), next(t, start)))
        } else if start > pos {
            match entries_rest(t, start, Seq::empty()) {
                Ok((entries, p)) => match consume(t, skip_newlines(t, p), Token::RightBrace) {
                    Ok(r2) => Ok((ExprModel::Dict(entries), r2)),
                    Err(e) => Err(e),
                },
                Err(e) => Err(e),
            }
        } else {
            Err(unexpected(t, pos, Seq::empty()))
        }
    } else if 0 <= pos && pos + 1 < t.len() && is_at(t, pos, Token::LParen) {
        match parse_expression(t, pos + 1) {
            Ok((e, p)) => match consume(t, p, Token::RParen) {
                Ok(r2) => Ok((e, r2)),
                Err(e) => Err(e),
            },
            Err(e) => Err(e),
        }
    } else {
        Err(unexpected(t, pos, "expression"@))
    }
}

/// The error for a block that the text ends in.
pub open spec fn unexpected_end(t: Tokens, pos: int) -> ErrorModel {
    ErrorModel {
        kind: KindModel::UnexpectedEof,
        span: Span { line: t[pos].line, column: t[pos].column },
    }
}

/// A call of the function `name` as a statement.
pub open spec fn call_statement(name: Seq<char>, arguments: Seq<ExprModel>, line: usize)
    -> StmtModel {
    StmtModel::Expression { expr: ExprModel::Call { name, arguments, line }, line }
}

/// A statement.
pub open spec fn parse_statement(t: Tokens, pos: int) -> Parsed<StmtModel>
    decreases left(t, pos), 60nat,
{
    let line = t[pos].line;
    if is_at(t, pos, Token::Let) {
        parse_let(t, pos)
    } else if is_at(t, pos, Token::Print) {
        parse_print(t, pos)
    } else if is_at(t, pos, Token::If) {
        parse_if(t, pos)
    } else if is_at(t, pos, Token::While) {
        parse_while(t, pos)
    } else if is_at(t, pos, Token::For) {
        parse_for(t, pos)
    } else if is_at(t, pos, Token::Fn) {
        parse_function(t, pos)
    } else if is_at(t, pos, Token::Return) {
        parse_return(t, pos)
    } else if is_at(t, pos, Token::Break) {
        Ok((StmtModel::Break { line }, next(t, pos)))
    } else if is_at(t, pos, Token::Continue) {
        Ok((StmtModel::Continue { line }, next(t, pos)))
    } else if is_at(t, pos, Token::WriteFile) || is_at(t, pos, Token::ReadFile) {
        if 0 <= pos && pos + 1 < t.len() {
            match parse_call_args(t, pos + 1) {
                Ok((arguments, p)) => Ok(
                    (call_statement(builtin_word(t[pos].token.kind)->0, arguments, line), p),
                ),
                Err(e) => Err(e),
            }
        } else {
            Err(unexpected(t, pos, Seq::empty()))
        }
    } else if is_at(t, pos, Token::Identifier(arbitrary())) {
        parse_identifier_stmt(t, pos)
    } else {
        Err(unexpected(t, pos, "statement"@))
    }
}

/// `let name = value`.
pub open spec fn parse_let(t: Tokens, pos: int) -> Parsed<StmtModel>
    decreases left(t, pos), 50nat,
{
    match consume_identifier(t, next(t, pos)) {
        Ok((name, p)) => match consume(t, p, Token::Equals) {
            Ok(r2) => if r2 > pos {
                match parse_expression(t, r2) {
                    Ok((value, r3)) => Ok((StmtModel::Let { name, value, line: t[pos].line }, r3)),
                    Err(e) => Err(e),
                }
            } else {
                Err(unexpected(t, pos, Seq::empty()))
            },
            Err(e) => Err(e),
        },
        Err(e) => Err(e),
    }
}

/// `print value`.
pub open spec fn parse_print(t: Tokens, pos: int) -> Parsed<StmtModel>
    decreases left(t, pos), 50nat,
{
    if 0 <= pos && pos + 1 < t.len() {
        match parse_expression(t, pos + 1) {
            Ok((value, p)) => Ok((StmtModel::Print { value, line: t[pos].line }, p)),
            Err(e) => Err(e),
        }
    } else {
        Err(unexpected(t, pos, Seq::empty()))
    }
}

/// `if condition { ... }`, and `else { ... }` after it.
pub open spec fn parse_if(t: Tokens, pos: int) -> Parsed<StmtModel>
    decreases left(t, pos), 50nat,
{
    if 0 <= pos && pos + 1 < t.len() {
        match parse_expression(t, pos + 1) {
            Ok((condition, p)) => if p > pos {
                match parse_block(t, p) {
                    Ok((then_branch, r2)) => if r2 > pos && r2 + 1 < t.len() && is_at(
                        t,
                        r2,
                        Token::Else,
                    ) {
                        match parse_block(t, r2 + 1) {
                            Ok((else_branch, r3)) => Ok(
                                (
                                    StmtModel::If {
                                        condition,
                                        then_branch,
                                        else_branch: Some(else_branch),
                                        line: t[pos].line,
                                    },
                                    r3,
                                ),
                            ),
                            Err(e) => Err(e),
                        }
                    } else {
                        Ok(
                            (
                                StmtModel::If {
                                    condition,
                                    then_branch,
                                    else_branch: None,
                                    line: t[pos].line,
                                },
                                r2,
                            ),
                        )
                    },
                    Err(e) => Err(e),
                }
            } else {
                Err(unexpected(t, pos, Seq::empty()))
            },
            Err(e) => Err(e),
        }
    } else {
        Err(unexpected(t, pos, Seq::empty()))
    }
}

/// `while condition { ... }`.
pub open spec fn parse_while(t: Tokens, pos: int) -> Parsed<StmtModel>
    decreases left(t, pos), 50nat,
{
    if 0 <= pos && pos + 1 < t.len() {
        match parse_expression(t, pos + 1) {
            Ok((condition, p)) => if p > pos {
                match parse_block(t, p) {
                    Ok((body, r2)) => Ok(
                        (StmtModel::While { condition, body, line: t[pos].line }, r2),
                    ),
                    Err(e) => Err(e),
                }
            } else {
                Err(unexpected(t, pos, Seq::empty()))
            },
            Err(e) => Err(e),
        }
    } else {
        Err(unexpected(t, pos, Seq::empty()))
    }
}

/// `for variable in iterable { ... }`.
pub open spec fn parse_for(t: Tokens, pos: int) -> Parsed<StmtModel>
    decreases left(t, pos), 50nat,
{
    match consume_identifier(t, next(t, pos)) {
        Ok((variable, p)) => match consume(t, p, Token::In) {
            Ok(r2) => if r2 > pos {
                match parse_expression(t, r2) {
                    Ok((iterable, r3)) => if r3 > pos {
                        match parse_block(t, r3) {
                            Ok((body, r4)) => Ok(
                                (
                                    StmtModel::For { variable, iterable, body, line: t[pos].line },
                                    r4,
                                ),
                            ),
                            Err(e) => Err(e),
                        }
                    } else {
                        Err(unexpected(t, pos, Seq::empty()))
                    },
                    Err(e) => Err(e),
                }
            } else {
                Err(unexpected(t, pos, Seq::empty()))
            },
            Err(e) => Err(e),
        },
        Err(e) => Err(e),
    }
}

/// The parameters of a function, after those in `done`: names separated
/// by commas.
pub open spec fn params_rest(t: Tokens, pos: int, done: Seq<Seq<char>>) -> Parsed<Seq<Seq<char>>>
    decreases left(t, pos),
{
    match consume_identifier(t, pos) {
        Ok((name, p)) => if 0 <= pos < p && p + 1 < t.len() && is_at(t, p, Token::Comma) {
            params_rest(t, p + 1, done.push(name))
        } else {
            Ok((done.push(name), p))
        },
        Err(e) => Err(e),
    }
}

/// The parameters of a function in their parentheses.
pub open spec fn parse_params(t: Tokens, pos: int) -> Parsed<Seq<Seq<char>>> {
    match consume(t, pos, Token::LParen) {
        Ok(p) => if is_at(t, p, Token::RParen) {
            Ok((Seq::empty(), next(t, p)))
        } else {
            match params_rest(t, p, Seq::empty()) {
                Ok((params, r2)) => match consume(t, r2, Token::RParen) {
                    Ok(r3) => Ok((params, r3)),
                    Err(e) => Err(e),
                },
                Err(e) => Err(e),
            }
        },
        Err(e) => Err(e),
    }
}

/// `fn name(parameters) { ... }`.
pub open spec fn parse_function(t: Tokens, pos: int) -> Parsed<StmtModel>
    decreases left(t, pos), 50nat,
{
    match consume_identifier(t, next(t, pos)) {
        Ok((name, p)) => match parse_params(t, p) {
            Ok((params, r2)) => if r2 > pos {
                match parse_block(t, r2) {
                    Ok((body, r3)) => Ok(
                        (StmtModel::Function { name, params, body, line: t[pos].line }, r3),
                    ),
                    Err(e) => Err(e),
                }
            } else {
                Err(unexpected(t, pos, Seq::empty()))
            },
            Err(e) => Err(e),
        },
        Err(e) => Err(e),
    }
}

/// `return`, with a value unless the line or the block ends after it.
pub open spec fn parse_return(t: Tokens, pos: int) -> Parsed<StmtModel>
    decreases left(t, pos), 50nat,
{
    let p = next(t, pos);
    if is_at(t, p, Token::Newline) || is_at(t, p, Token::RightBrace) || is_at(t, p, Token::Eof) {
        Ok((StmtModel::Return { value: None, line: t[pos].line }, p))
    } else if p > pos {
        match parse_expression(t, p) {
            Ok((value, r2)) => Ok(
                (StmtModel::Return { value: Some(value), line: t[pos].line }, r2),
            ),
            Err(e) => Err(e),
        }
    } else {
        Err(unexpected(t, pos, Seq::empty()))
    }
}

/// Statements in braces.
pub open spec fn parse_block(t: Tokens, pos: int) -> Parsed<Seq<StmtModel>>
    decreases left(t, pos), 45nat,
{
    match consume(t, pos, Token::LeftBrace) {
        Ok(p) => if p > pos {
            block_rest(t, p, Seq::empty())
        } else {
            Err(unexpected(t, pos, Seq::empty()))
        },
        Err(e) => Err(e),
    }
}

/// The statements of a block after those in `done`, up to the closing brace.
pub open spec fn block_rest(t: Tokens, pos: int, done: Seq<StmtModel>) -> Parsed<Seq<StmtModel>>
    decreases left(t, pos), 61nat,
{
    let start = skip_newlines(t, pos);
    if start < pos || pos >= t.len() {
        Err(unexpected(t, pos, Seq::empty()))
    } else if is_at(t, start, Token::RightBrace) {
        Ok((done, next(t, start)))
    } else if is_at(t, start, Token::Eof) {
        Err(unexpected_end(t, start))
    } else {
        match parse_statement(t, start) {
            Ok((s, p)) => if p > start {
                block_rest(t, p, done.push(s))
            } else {
                Err(unexpected(t, pos, Seq::empty()))
            },
            Err(e) => Err(e),
        }
    }
}

/// A statement that starts with a name: an assignment to an element,
/// `name[index] = value`, or a call, `name(arguments)`.
pub open spec fn parse_identifier_stmt(t: Tokens, pos: int) -> Parsed<StmtModel>
    decreases left(t, pos), 50nat,
{
    let line = t[pos].line;
    match consume_identifier(t, pos) {
        Ok((name, p)) => if p > pos && p + 1 < t.len() && is_at(t, p, Token::LeftBracket) {
            match parse_expression(t, p + 1) {
                Ok((index, r2)) => match consume(t, r2, Token::RightBracket) {
                    Ok(r3) => match consume(t, r3, Token::Equals) {
                        Ok(r4) => if r4 > pos {
                            match parse_expression(t, r4) {
                                Ok((value, r5)) => Ok(
                                    (StmtModel::IndexAssign { object: name, index, value, line }, r5),
                                ),
                                Err(e) => Err(e),
                            }
                        } else {
                            Err(unexpected(t, pos, Seq::empty()))
                        },
                        Err(e) => Err(e),
                    },
                    Err(e) => Err(e),
                },
                Err(e) => Err(e),
            }
        } else if p > pos && is_at(t, p, Token::LParen) {
            match parse_call_args(t, p) {
                Ok((arguments, r2)) => Ok((call_statement(name, arguments, line), r2)),
                Err(e) => Err(e),
            }
        } else {
            Err(unexpected(t, p, "'(' or '['"@))
        },
        Err(e) => Err(e),
    }
}

/// The statements of a program after those in `done`, up to the end token.
pub open spec fn program_rest(t: Tokens, pos: int, done: Seq<StmtModel>) -> Parsed<Seq<StmtModel>>
    decreases left(t, pos), 61nat,
{
    let start = skip_newlines(t, pos);
    if start < pos || pos >= t.len() {
        Err(unexpected(t, pos, Seq::empty()))
    } else if is_at(t, start, Token::Eof) {
        Ok((done, start))
    } else {
        match parse_statement(t, start) {
            Ok((s, p)) => if p > start {
                program_rest(t, p, done.push(s))
            } else {
                Err(unexpected(t, pos, Seq::empty()))
            },
            Err(e) => Err(e),
        }
    }
}

/// The statements of a program.
pub open spec fn parse_program(t: Tokens) -> Result<Seq<StmtModel>, ErrorModel> {
    match program_rest(t, 0, Seq::empty()) {
        Ok((stmts, _)) => Ok(stmts),
        Err(e) => Err(e),
    }
}

/// Line ends are skipped forward, and never beyond the last token.
pub proof fn lemma_skip_newlines(t: Tokens, pos: int)
    requires
        0 <= pos < t.len(),
    ensures
        pos <= skip_newlines(t, pos) < t.len(),
        !(skip_newlines(t, pos) + 1 < t.len() && is_at(t, skip_newlines(t, pos), Token::Newline)),
    decreases left(t, pos),
{
    if pos + 1 < t.len() && is_at(t, pos, Token::Newline) {
        lemma_skip_newlines(t, pos + 1);
    }
}

} // verus!

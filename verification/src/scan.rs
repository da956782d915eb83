//! What the lexer makes of a text, stated as functions on characters.

use vstd::prelude::*;
use crate::decimal::{is_digit, literal_bits};
use crate::error::{ErrorModel, KindModel, Span};
use crate::token::{SpannedModel, Token, TokenModel, plain};

verus! {

/// Whether Unicode counts the character as alphabetic.
pub uninterp spec fn alphabetic(c: char) -> bool;

/// Whether Unicode counts the character as alphabetic or numeric.
pub uninterp spec fn alphanumeric(c: char) -> bool;

/// Whether a character can start a name.
pub open spec fn name_start(c: char) -> bool {
    alphabetic(c) || c == '_'
}

/// Whether a character can stand inside a name.
pub open spec fn name_part(c: char) -> bool {
    alphanumeric(c) || c == '_'
}

/// A place in a text: how many characters stand before it, and the line
/// and column of the character at it, both counted from 1.
pub struct Place {
    pub pos: int,
    pub line: usize,
    pub column: usize,
}

/// The place after the character at `p`.  After a line feed the next line
/// begins, at column 1.
pub open spec fn after(chars: Seq<char>, p: Place) -> Place {
    if 0 <= p.pos < chars.len() {
        if chars[p.pos] == '\n' {
            Place {
                pos: p.pos + 1,
                line: if p.line < usize::MAX {
                    (p.line + 1) as usize
                } else {
                    p.line
                },
                column: 1,
            }
        } else {
            Place {
                pos: p.pos + 1,
                line: p.line,
                column: if p.column < usize::MAX {
                    (p.column + 1) as usize
                } else {
                    p.column
                },
            }
        }
    } else {
        p
    }
}

pub open spec fn is_blank(c: char) -> bool {
    c == ' ' || c == '\t' || c == '\r'
}

/// The place of the first character from `p` on that is no space, tab
/// or carriage return.
pub open spec fn skip_blanks(chars: Seq<char>, p: Place) -> Place
    decreases chars.len() - p.pos,
{
    if 0 <= p.pos < chars.len() && is_blank(chars[p.pos]) {
        skip_blanks(chars, after(chars, p))
    } else {
        p
    }
}

/// The place of the line feed that ends the line of `p`, or the end of the text.
pub open spec fn skip_line(chars: Seq<char>, p: Place) -> Place
    decreases chars.len() - p.pos,
{
    if 0 <= p.pos < chars.len() && chars[p.pos] != '\n' {
        skip_line(chars, after(chars, p))
    } else {
        p
    }
}

/// The place after the digits that stand at `p`.
pub open spec fn skip_digits(chars: Seq<char>, p: Place) -> Place
    decreases chars.len() - p.pos,
{
    if 0 <= p.pos < chars.len() && is_digit(chars[p.pos]) {
        skip_digits(chars, after(chars, p))
    } else {
        p
    }
}

/// The place after the characters of a name that stand at `p`.
pub open spec fn skip_name(chars: Seq<char>, p: Place) -> Place
    decreases chars.len() - p.pos,
{
    if 0 <= p.pos < chars.len() && name_part(chars[p.pos]) {
        skip_name(chars, after(chars, p))
    } else {
        p
    }
}

/// Whether a point and a digit stand at `p`.
pub open spec fn fraction_at(chars: Seq<char>, p: Place) -> bool {
    0 <= p.pos && p.pos + 1 < chars.len() && chars[p.pos] == '.' && is_digit(chars[p.pos + 1])
}

/// The place after the number that starts at `p`: digits, and after them
/// a point with more digits.
pub open spec fn number_end(chars: Seq<char>, p: Place) -> Place {
    let whole = skip_digits(chars, p);
    if fraction_at(chars, whole) {
        skip_digits(chars, after(chars, whole))
    } else {
        whole
    }
}

/// The number that starts at `p`.
pub open spec fn number_at(chars: Seq<char>, p: Place) -> TokenModel {
    let whole = skip_digits(chars, p);
    TokenModel {
        kind: Token::Number(crate::number::Number { bits: 0 }).kind(),
        text: Seq::empty(),
        bits: if fraction_at(chars, whole) {
            literal_bits(
                chars.subrange(p.pos, whole.pos),
                chars.subrange(whole.pos + 1, skip_digits(chars, after(chars, whole)).pos),
            )
        } else {
            literal_bits(chars.subrange(p.pos, whole.pos), Seq::empty())
        },
    }
}

/// The kind of the keyword that a word is.
pub open spec fn keyword(word: Seq<char>) -> Option<Token> {
    if word == "let"@ {
        Some(Token::Let)
    } else if word == "print"@ {
        Some(Token::Print)
    } else if word == "if"@ {
        Some(Token::If)
    } else if word == "else"@ {
        Some(Token::Else)
    } else if word == "while"@ {
        Some(Token::While)
    } else if word == "for"@ {
        Some(Token::For)
    } else if word == "in"@ {
        Some(Token::In)
    } else if word == "and"@ {
        Some(Token::And)
    } else if word == "or"@ {
        Some(Token::Or)
    } else if word == "not"@ {
        Some(Token::Not)
    } else if word == "fn"@ {
        Some(Token::Fn)
    } else if word == "return"@ {
        Some(Token::Return)
    } else if word == "break"@ {
        Some(Token::Break)
    } else if word == "continue"@ {
        Some(Token::Continue)
    } else if word == "length"@ {
        Some(Token::Length)
    } else if word == "push"@ {
        Some(Token::Push)
    } else if word == "pop"@ {
        Some(Token::Pop)
    } else if word == "reverse"@ {
        Some(Token::Reverse)
    } else if word == "slice"@ {
        Some(Token::Slice)
    } else if word == "range"@ {
        Some(Token::Range)
    } else if word == "input"@ {
        Some(Token::Input)
    } else if word == "read_file"@ {
        Some(Token::ReadFile)
    } else if word == "write_file"@ {
        Some(Token::WriteFile)
    } else if word == "keys"@ {
        Some(Token::Keys)
    } else if word == "values"@ {
        Some(Token::Values)
    } else if word == "has_key"@ {
        Some(Token::HasKey)
    } else if word == "true"@ {
        Some(Token::True)
    } else if word == "false"@ {
        Some(Token::False)
    } else {
        None
    }
}

/// The token that a word is: a keyword, or a name.
pub open spec fn word_token(word: Seq<char>) -> TokenModel {
    match keyword(word) {
        Some(t) => plain(t.kind()),
        None => TokenModel {
            kind: Token::Identifier(arbitrary()).kind(),
            text: word,
            bits: 0,
        },
    }
}

/// The characters that an escape stands for: `\n`, `\t`, `\r`, `\\` and
/// `\"` stand for one character; any other character keeps its backslash.
pub open spec fn escape(e: char) -> Seq<char> {
    if e == 'n' {
        seq!['\n']
    } else if e == 't' {
        seq!['\t']
    } else if e == 'r' {
        seq!['\r']
    } else if e == '\\' {
        seq!['\\']
    } else if e == '"' {
        seq!['"']
    } else {
        seq!['\\', e]
    }
}

/// The rest of a string literal from `p` on, after `text` has been read:
/// its text and the place after its closing quote, or nothing when the
/// line or the text ends before the quote.
pub open spec fn string_rest(chars: Seq<char>, p: Place, text: Seq<char>) -> Option<
    (Seq<char>, Place),
>
    decreases chars.len() - p.pos,
{
    if !(0 <= p.pos < chars.len()) {
        None
    } else if chars[p.pos] == '\n' {
        None
    } else if chars[p.pos] == '"' {
        Some((text, after(chars, p)))
    } else if chars[p.pos] == '\\' {
        if p.pos + 1 < chars.len() {
            string_rest(chars, after(chars, after(chars, p)), text + escape(chars[p.pos + 1]))
        } else {
            None
        }
    } else {
        string_rest(chars, after(chars, p), text.push(chars[p.pos]))
    }
}

/// The kind of the token that one or two characters of punctuation are,
/// and how many characters it takes.
pub open spec fn punctuation(c: char, next_is_equals: bool) -> Option<(Token, int)> {
    if c == '\n' {
        Some((Token::Newline, 1))
    } else if c == '(' {
        Some((Token::LParen, 1))
    } else if c == ')' {
        Some((Token::RParen, 1))
    } else if c == '{' {
        Some((Token::LeftBrace, 1))
    } else if c == '}' {
        Some((Token::RightBrace, 1))
    } else if c == '[' {
        Some((Token::LeftBracket, 1))
    } else if c == ']' {
        Some((Token::RightBracket, 1))
    } else if c == ',' {
        Some((Token::Comma, 1))
    } else if c == ':' {
        Some((Token::Colon, 1))
    } else if c == '+' {
        Some((Token::Plus, 1))
    } else if c == '*' {
        Some((Token::Star, 1))
    } else if c == '/' {
        Some((Token::Slash, 1))
    } else if c == '%' {
        Some((Token::Percent, 1))
    } else if c == '-' {
        Some((Token::Minus, 1))
    } else if c == '=' {
        if next_is_equals {
            Some((Token::EqualEqual, 2))
        } else {
            Some((Token::Equals, 1))
        }
    } else if c == '!' {
        if next_is_equals {
            Some((Token::BangEqual, 2))
        } else {
            Some((Token::Bang, 1))
        }
    } else if c == '<' {
        if next_is_equals {
            Some((Token::LessEqual, 2))
        } else {
            Some((Token::Less, 1))
        }
    } else if c == '>' {
        if next_is_equals {
            Some((Token::GreaterEqual, 2))
        } else {
            Some((Token::Greater, 1))
        }
    } else {
        None
    }
}

pub open spec fn error_at(kind: KindModel, p: Place) -> ErrorModel {
    ErrorModel { kind, span: Span { line: p.line, column: p.column } }
}

/// The token that starts at `p`, where a character stands that is
/// neither blank nor the start of a comment, and the place after it.
pub open spec fn token_at(chars: Seq<char>, p: Place) -> Result<(TokenModel, Place), ErrorModel> {
    let c = chars[p.pos];
    let next_is_equals = p.pos + 1 < chars.len() && chars[p.pos + 1] == '=';
    match punctuation(c, next_is_equals) {
        Some((t, n)) => Ok(
            (
                plain(t.kind()),
                if n == 2 {
                    after(chars, after(chars, p))
                } else {
                    after(chars, p)
                },
            ),
        ),
        None => if c == '"' {
            match string_rest(chars, after(chars, p), Seq::empty()) {
                Some((text, end)) => Ok(
                    (TokenModel { kind: Token::Str(arbitrary()).kind(), text, bits: 0 }, end),
                ),
                None => Err(error_at(KindModel::UnterminatedString, p)),
            }
        } else if is_digit(c) {
            Ok((number_at(chars, p), number_end(chars, p)))
        } else if name_start(c) {
            Ok(
                (
                    word_token(
                        chars.subrange(p.pos, skip_name(chars, after(chars, p)).pos),
                    ),
                    skip_name(chars, after(chars, p)),
                ),
            )
        } else {
            Err(error_at(KindModel::UnexpectedCharacter(c), p))
        },
    }
}

/// The next token from `p` on, with its place, and the place after it.
/// Blanks are skipped, and so are comments, which go from `#` to the end
/// of the line.  At the end of the text stands the end token.
pub open spec fn next_token(chars: Seq<char>, p: Place) -> Result<(SpannedModel, Place), ErrorModel>
    decreases
        (if p.pos < chars.len() {
            chars.len() - p.pos
        } else {
            0
        }),
{
    let start = skip_blanks(chars, p);
    if !(0 <= start.pos < chars.len()) {
        Ok(
            (
                SpannedModel {
                    token: plain(Token::Eof.kind()),
                    line: start.line,
                    column: start.column,
                },
                start,
            ),
        )
    } else if chars[start.pos] == '#' {
        if skip_line(chars, start).pos > p.pos && p.pos < chars.len() {
            next_token(chars, skip_line(chars, start))
        } else {
            Err(error_at(KindModel::UnexpectedCharacter('#'), start))
        }
    } else {
        match token_at(chars, start) {
            Ok((token, end)) => Ok(
                (SpannedModel { token, line: start.line, column: start.column }, end),
            ),
            Err(e) => Err(e),
        }
    }
}

/// All tokens from `p` on, up to the end token.
pub open spec fn tokens_from(chars: Seq<char>, p: Place) -> Result<Seq<SpannedModel>, ErrorModel>
    decreases
        (if p.pos < chars.len() {
            chars.len() - p.pos
        } else {
            0
        }),
{
    match next_token(chars, p) {
        Err(e) => Err(e),
        Ok((t, end)) => if t.token.kind == Token::Eof.kind() || end.pos <= p.pos || p.pos
            >= chars.len() {
            Ok(seq![t])
        } else {
            match tokens_from(chars, end) {
                Ok(rest) => Ok(seq![t] + rest),
                Err(e) => Err(e),
            }
        },
    }
}

/// The place at which a text starts.
pub open spec fn beginning() -> Place {
    Place { pos: 0, line: 1, column: 1 }
}

/// The tokens of a text.
pub open spec fn tokens_of(chars: Seq<char>) -> Result<Seq<SpannedModel>, ErrorModel> {
    tokens_from(chars, beginning())
}

pub proof fn lemma_skip_blanks_moves(chars: Seq<char>, p: Place)
    requires
        0 <= p.pos <= chars.len(),
    ensures
        p.pos <= skip_blanks(chars, p).pos <= chars.len(),
        skip_blanks(chars, p).line >= p.line,
    decreases chars.len() - p.pos,
{
    if 0 <= p.pos < chars.len() && is_blank(chars[p.pos]) {
        lemma_skip_blanks_moves(chars, after(chars, p));
    }
}

pub proof fn lemma_skip_digits_moves(chars: Seq<char>, p: Place)
    requires
        0 <= p.pos <= chars.len(),
    ensures
        p.pos <= skip_digits(chars, p).pos <= chars.len(),
    decreases chars.len() - p.pos,
{
    if 0 <= p.pos < chars.len() && is_digit(chars[p.pos]) {
        lemma_skip_digits_moves(chars, after(chars, p));
    }
}

pub proof fn lemma_skip_line_moves(chars: Seq<char>, p: Place)
    requires
        0 <= p.pos <= chars.len(),
    ensures
        p.pos <= skip_line(chars, p).pos <= chars.len(),
        skip_line(chars, p).line >= p.line,
        p.pos < chars.len() && chars[p.pos] != '\n' ==> skip_line(chars, p).pos > p.pos,
    decreases chars.len() - p.pos,
{
    if 0 <= p.pos < chars.len() && chars[p.pos] != '\n' {
        lemma_skip_line_moves(chars, after(chars, p));
    }
}

} // verus!

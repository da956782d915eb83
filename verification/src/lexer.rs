//! Turns source text into tokens.

use vstd::prelude::*;
use vstd::string::*;
use crate::decimal::{all_digits, is_digit};
use crate::dict::same_text;
use crate::error::{ErrorKind, ErrorModel, Span, WhispemError, WhispemResult};
use crate::number::Number;
use crate::scan::{
    Place,
    after,
    alphabetic,
    alphanumeric,
    beginning,
    error_at,
    escape,
    is_blank,
    keyword,
    lemma_skip_line_moves,
    next_token,
    number_at,
    number_end,
    punctuation,
    skip_blanks,
    skip_digits,
    skip_line,
    skip_name,
    string_rest,
    token_at,
    tokens_from,
    word_token,
};
use crate::text::{chars_of, push_char};
use crate::token::{Spanned, SpannedModel, Token, TokenModel, plain};

verus! {

/// Wraps `char::is_alphabetic`: true exactly for the characters that have
/// the Unicode property `Alphabetic`.
#[verifier::external_body]
fn char_is_alphabetic(c: char) -> (b: bool)
    ensures
        b == alphabetic(c),
{
    c.is_alphabetic()
}

/// Wraps `char::is_alphanumeric`: true exactly for the characters that are
/// alphabetic or numeric in Unicode.
#[verifier::external_body]
fn char_is_alphanumeric(c: char) -> (b: bool)
    ensures
        b == alphanumeric(c),
{
    c.is_alphanumeric()
}

/// Whether every token before the last is not the end, and the last one is.
pub open spec fn ends_with_eof(tokens: Seq<Spanned>) -> bool {
    &&& tokens.len() > 0
    &&& tokens.last().token is Eof
    &&& forall|i: int| 0 <= i < tokens.len() - 1 ==> !(#[trigger] tokens[i].token is Eof)
}

/// The models of a sequence of tokens.
pub open spec fn token_views(tokens: Seq<Spanned>) -> Seq<SpannedModel> {
    Seq::new(tokens.len(), |i: int| tokens[i]@)
}

pub struct Lexer {
    input: Vec<char>,
    position: usize,
    line: usize,
    column: usize,
}

impl Lexer {
    /// The characters of the text.
    pub closed spec fn chars(&self) -> Seq<char> {
        self.input@
    }

    /// The place at which the lexer stands.
    pub closed spec fn place(&self) -> Place {
        Place { pos: self.position as int, line: self.line, column: self.column }
    }

    /// How many characters have been read.
    pub open spec fn offset(&self) -> int {
        self.place().pos
    }

    /// The lexer stands within the text or at its end.
    pub open spec fn wf(&self) -> bool {
        0 <= self.place().pos <= self.chars().len()
    }

    pub fn new(input: &str) -> (l: Lexer)
        ensures
            l.chars() == input@,
            l.place() == beginning(),
            l.wf(),
    {
        Lexer { input: chars_of(input), position: 0, line: 1, column: 1 }
    }

    /// The next character, if the text has not ended.
    pub fn current_char(&self) -> (c: Option<char>)
        requires
            self.wf(),
        ensures
            c == (if self.offset() < self.chars().len() {
                Some(self.chars()[self.offset()])
            } else {
                None
            }),
    {
        if self.position < self.input.len() {
            Some(self.input[self.position])
        } else {
            None
        }
    }

    /// The character after the next one, if there is one.
    pub fn peek_char(&self) -> (c: Option<char>)
        requires
            self.wf(),
        ensures
            c == (if self.offset() + 1 < self.chars().len() {
                Some(self.chars()[self.offset() + 1])
            } else {
                None
            }),
    {
        if self.position < self.input.len() && self.position + 1 < self.input.len() {
            Some(self.input[self.position + 1])
        } else {
            None
        }
    }

    /// Steps over the next character.  After a line feed the next line
    /// begins, at column 1.  At the end of the text nothing changes.
    pub fn advance(&mut self)
        requires
            old(self).wf(),
        ensures
            final(self).wf(),
            final(self).chars() == old(self).chars(),
            final(self).place() == after(old(self).chars(), old(self).place()),
    {
        if self.position < self.input.len() {
            if self.input[self.position] == '\n' {
                if self.line < usize::MAX {
                    self.line += 1;
                }
                self.column = 1;
            } else if self.column < usize::MAX {
                self.column += 1;
            }
            self.position += 1;
        }
    }

    /// Tokenizes the text from where the lexer stands.  The tokens end
    /// with the one end token; a character that starts no token, or a
    /// string without its closing quote, is an error.
    pub fn tokenize(&mut self) -> (r: WhispemResult<Vec<Spanned>>)
        requires
            old(self).wf(),
        ensures
            final(self).wf(),
            final(self).chars() == old(self).chars(),
            match r {
                Ok(tokens) => tokens_from(old(self).chars(), old(self).place()) == Ok::<
                    Seq<SpannedModel>,
                    ErrorModel,
                >(token_views(tokens@)) && ends_with_eof(tokens@),
                Err(e) => tokens_from(old(self).chars(), old(self).place()) == Err::<
                    Seq<SpannedModel>,
                    ErrorModel,
                >(e@),
            },
    {
        let mut tokens: Vec<Spanned> = Vec::new();
        let ghost chars = self.chars();
        let ghost start = self.place();
        proof {
            lemma_joined_empty(tokens_from(chars, start));
            assert(token_views(tokens@) =~= Seq::<SpannedModel>::empty());
        }
        loop
            invariant
                self.wf(),
                self.chars() == chars,
                chars == old(self).chars(),
                start == old(self).place(),
                forall|i: int| 0 <= i < tokens@.len() ==> !(#[trigger] tokens@[i].token is Eof),
                tokens_from(chars, start) == joined(
                    token_views(tokens@),
                    tokens_from(chars, self.place()),
                ),
            decreases chars.len() - self.offset(),
        {
            let ghost here = self.place();
            let ghost before = token_views(tokens@);
            let spanned = match self.next_spanned() {
                Ok(s) => s,
                Err(e) => {
                    return Err(e);
                },
            };
            let is_eof = matches!(spanned.token, Token::Eof);
            let ghost model = spanned@;
            tokens.push(spanned);
            proof {
                assert(token_views(tokens@) =~= before.push(model));
                if !is_eof {
                    lemma_joined_step(before, model, tokens_from(chars, self.place()));
                } else {
                    assert(before + seq![model] =~= before.push(model));
                }
            }
            if is_eof {
                return Ok(tokens);
            }
        }
    }

    /// Reads the next token.
    fn next_spanned(&mut self) -> (r: WhispemResult<Spanned>)
        requires
            old(self).wf(),
        ensures
            final(self).wf(),
            final(self).chars() == old(self).chars(),
            match r {
                Ok(t) => next_token(old(self).chars(), old(self).place()) == Ok::<
                    (SpannedModel, Place),
                    ErrorModel,
                >((t@, final(self).place())) && (t.token is Eof || final(self).offset() > old(
                    self,
                ).offset()),
                Err(e) => next_token(old(self).chars(), old(self).place()) == Err::<
                    (SpannedModel, Place),
                    ErrorModel,
                >(e@),
            },
    {
        let ghost chars = self.chars();
        loop
            invariant
                self.wf(),
                self.chars() == chars,
                chars == old(self).chars(),
                self.offset() >= old(self).offset(),
                next_token(chars, old(self).place()) == next_token(chars, self.place()),
            decreases chars.len() - self.offset(),
        {
            let ghost begin = self.place();
            while self.at_blank()
                invariant
                    self.wf(),
                    self.chars() == chars,
                    self.offset() >= begin.pos,
                    skip_blanks(chars, begin) == skip_blanks(chars, self.place()),
                decreases chars.len() - self.offset(),
            {
                self.advance();
            }
            let line = self.line;
            let column = self.column;
            let ghost start = self.place();
            assert(start == skip_blanks(chars, begin));
            let c = match self.current_char() {
                None => {
                    return Ok(Spanned { token: Token::Eof, line, column });
                },
                Some(c) => c,
            };
            if c == '#' {
                proof {
                    lemma_skip_line_moves(chars, start);
                }
                while self.in_comment()
                    invariant
                        self.wf(),
                        self.chars() == chars,
                        self.offset() >= start.pos,
                        skip_line(chars, start) == skip_line(chars, self.place()),
                    decreases chars.len() - self.offset(),
                {
                    self.advance();
                }
                continue ;
            }
            let token = match self.read_token(c, line, column) {
                Ok(t) => t,
                Err(e) => {
                    return Err(e);
                },
            };
            return Ok(Spanned { token, line, column });
        }
    }

    /// Reads the token that starts with the character `c`, at which the
    /// lexer stands.
    fn read_token(&mut self, c: char, line: usize, column: usize) -> (r: WhispemResult<Token>)
        requires
            old(self).wf(),
            old(self).offset() < old(self).chars().len(),
            c == old(self).chars()[old(self).offset()],
            line == old(self).place().line,
            column == old(self).place().column,
        ensures
            final(self).wf(),
            final(self).chars() == old(self).chars(),
            match r {
                Ok(t) => token_at(old(self).chars(), old(self).place()) == Ok::<
                    (TokenModel, Place),
                    ErrorModel,
                >((t@, final(self).place())) && !(t is Eof) && final(self).offset() > old(
                    self,
                ).offset(),
                Err(e) => token_at(old(self).chars(), old(self).place()) == Err::<
                    (TokenModel, Place),
                    ErrorModel,
                >(e@),
            },
    {
        let next_is_equals = match self.peek_char() {
            Some(n) => n == '=',
            None => false,
        };
        match punctuation_of(c, next_is_equals) {
            Some((t, two)) => {
                self.advance();
                if two {
                    self.advance();
                }
                Ok(t)
            },
            None => {
                if c == '"' {
                    self.read_string(line, column)
                } else if '0' <= c && c <= '9' {
                    Ok(self.read_number())
                } else if c == '_' || char_is_alphabetic(c) {
                    Ok(self.read_identifier())
                } else {
                    Err(
                        WhispemError::new(
                            ErrorKind::UnexpectedCharacter(c),
                            Span::new(line, column),
                        ),
                    )
                }
            },
        }
    }

    /// Whether the next character is a space, a tab or a carriage return.
    fn at_blank(&self) -> (b: bool)
        requires
            self.wf(),
        ensures
            b == (self.offset() < self.chars().len() && is_blank(self.chars()[self.offset()])),
    {
        match self.current_char() {
            Some(c) => c == ' ' || c == '\t' || c == '\r',
            None => false,
        }
    }

    /// Whether the next character belongs to a comment that has begun.
    fn in_comment(&self) -> (b: bool)
        requires
            self.wf(),
        ensures
            b == (self.offset() < self.chars().len() && self.chars()[self.offset()] != '\n'),
    {
        match self.current_char() {
            Some(c) => c != '\n',
            None => false,
        }
    }

    /// Reads digits, and returns them.
    fn read_digits(&mut self) -> (digits: Vec<char>)
        requires
            old(self).wf(),
        ensures
            final(self).wf(),
            final(self).chars() == old(self).chars(),
            final(self).place() == skip_digits(old(self).chars(), old(self).place()),
            final(self).offset() >= old(self).offset(),
            digits@ == old(self).chars().subrange(old(self).offset(), final(self).offset()),
            all_digits(digits@),
            old(self).offset() < old(self).chars().len() && is_digit(
                old(self).chars()[old(self).offset()],
            ) ==> final(self).offset() > old(self).offset(),
    {
        let mut digits: Vec<char> = Vec::new();
        let ghost chars = self.chars();
        let ghost start = self.place();
        proof {
            assert(chars.subrange(start.pos, start.pos) =~= Seq::<char>::empty());
        }
        loop
            invariant
                self.wf(),
                self.chars() == chars,
                chars == old(self).chars(),
                start == old(self).place(),
                self.offset() >= start.pos,
                skip_digits(chars, start) == skip_digits(chars, self.place()),
                digits@ == chars.subrange(start.pos, self.offset()),
                all_digits(digits@),
                digits@.len() == 0 ==> self.offset() == start.pos,
                digits@.len() > 0 ==> self.offset() > start.pos,
            ensures
                skip_digits(chars, self.place()) == self.place(),
            decreases chars.len() - self.offset(),
        {
            let c = match self.current_char() {
                Some(c) => c,
                None => {
                    break ;
                },
            };
            if '0' <= c && c <= '9' {
                proof {
                    assert(chars.subrange(start.pos, self.offset() + 1) =~= chars.subrange(
                        start.pos,
                        self.offset(),
                    ).push(c));
                }
                digits.push(c);
                self.advance();
            } else {
                break ;
            }
        }
        proof {
            if start.pos < chars.len() && is_digit(chars[start.pos]) && digits@.len() == 0 {
                crate::scan::lemma_skip_digits_moves(chars, after(chars, self.place()));
            }
        }
        digits
    }

    /// Reads a number: digits, and after them a point with more digits.
    fn read_number(&mut self) -> (t: Token)
        requires
            old(self).wf(),
            old(self).offset() < old(self).chars().len(),
            is_digit(old(self).chars()[old(self).offset()]),
        ensures
            final(self).wf(),
            final(self).chars() == old(self).chars(),
            final(self).offset() > old(self).offset(),
            t@ == number_at(old(self).chars(), old(self).place()),
            final(self).place() == number_end(old(self).chars(), old(self).place()),
            t is Number,
    {
        let int_part = self.read_digits();
        let has_fraction = match self.current_char() {
            Some(c) => c == '.' && self.digit_follows(),
            None => false,
        };
        if has_fraction {
            self.advance();
            let frac_part = self.read_digits();
            Token::Number(Number::parse_decimal(&int_part, &frac_part))
        } else {
            let frac_part: Vec<char> = Vec::new();
            Token::Number(Number::parse_decimal(&int_part, &frac_part))
        }
    }

    /// Whether the character after the next one is a digit.
    fn digit_follows(&self) -> (b: bool)
        requires
            self.wf(),
        ensures
            b == (self.offset() + 1 < self.chars().len() && is_digit(
                self.chars()[self.offset() + 1],
            )),
    {
        match self.peek_char() {
            Some(c) => '0' <= c && c <= '9',
            None => false,
        }
    }

    /// Reads a name, which may be a keyword.
    fn read_identifier(&mut self) -> (t: Token)
        requires
            old(self).wf(),
            old(self).offset() < old(self).chars().len(),
        ensures
            final(self).wf(),
            final(self).chars() == old(self).chars(),
            final(self).offset() > old(self).offset(),
            final(self).place() == skip_name(
                old(self).chars(),
                after(old(self).chars(), old(self).place()),
            ),
            t@ == word_token(old(self).chars().subrange(old(self).offset(), final(self).offset())),
            !(t is Eof),
    {
        let mut ident = String::new();
        let ghost chars = self.chars();
        let ghost start = self.place();
        let first = self.input[self.position];
        push_char(&mut ident, first);
        self.advance();
        proof {
            assert(chars.subrange(start.pos, start.pos + 1) =~= seq![first]);
            assert(Seq::<char>::empty().push(first) =~= seq![first]);
        }
        loop
            invariant
                self.wf(),
                self.chars() == chars,
                chars == old(self).chars(),
                start == old(self).place(),
                self.offset() > start.pos,
                skip_name(chars, after(chars, start)) == skip_name(chars, self.place()),
                ident@ == chars.subrange(start.pos, self.offset()),
            ensures
                skip_name(chars, self.place()) == self.place(),
            decreases chars.len() - self.offset(),
        {
            let c = match self.current_char() {
                Some(c) => c,
                None => {
                    break ;
                },
            };
            if c == '_' || char_is_alphanumeric(c) {
                proof {
                    assert(chars.subrange(start.pos, self.offset() + 1) =~= chars.subrange(
                        start.pos,
                        self.offset(),
                    ).push(c));
                }
                push_char(&mut ident, c);
                self.advance();
            } else {
                break ;
            }
        }
        keyword_or_name(ident)
    }

    /// Reads a string literal, from its opening quote to its closing one.
    fn read_string(&mut self, line: usize, column: usize) -> (r: WhispemResult<Token>)
        requires
            old(self).wf(),
            old(self).offset() < old(self).chars().len(),
            line == old(self).place().line,
            column == old(self).place().column,
        ensures
            final(self).wf(),
            final(self).chars() == old(self).chars(),
            match r {
                Ok(t) => t is Str && string_rest(
                    old(self).chars(),
                    after(old(self).chars(), old(self).place()),
                    Seq::empty(),
                ) == Some((t@.text, final(self).place())) && final(self).offset() > old(
                    self,
                ).offset(),
                Err(e) => string_rest(
                    old(self).chars(),
                    after(old(self).chars(), old(self).place()),
                    Seq::empty(),
                ) is None && e@ == error_at(
                    crate::error::KindModel::UnterminatedString,
                    old(self).place(),
                ),
            },
    {
        let ghost chars = self.chars();
        let ghost start = self.place();
        self.advance();
        let mut value = String::new();
        loop
            invariant
                self.wf(),
                self.chars() == chars,
                chars == old(self).chars(),
                start == old(self).place(),
                line == start.line,
                column == start.column,
                self.offset() > start.pos,
                string_rest(chars, after(chars, start), Seq::empty()) == string_rest(
                    chars,
                    self.place(),
                    value@,
                ),
            decreases chars.len() - self.offset(),
        {
            let c = match self.current_char() {
                Some(c) => c,
                None => {
                    return Err(
                        WhispemError::new(ErrorKind::UnterminatedString, Span::new(line, column)),
                    );
                },
            };
            if c == '\n' {
                return Err(
                    WhispemError::new(ErrorKind::UnterminatedString, Span::new(line, column)),
                );
            } else if c == '"' {
                self.advance();
                return Ok(Token::Str(value));
            } else if c == '\\' {
                let e = match self.peek_char() {
                    Some(e) => e,
                    None => {
                        return Err(
                            WhispemError::new(
                                ErrorKind::UnterminatedString,
                                Span::new(line, column),
                            ),
                        );
                    },
                };
                let ghost before = value@;
                if e == 'n' {
                    push_char(&mut value, '\n');
                } else if e == 't' {
                    push_char(&mut value, '\t');
                } else if e == 'r' {
                    push_char(&mut value, '\r');
                } else if e == '\\' {
                    push_char(&mut value, '\\');
                } else if e == '"' {
                    push_char(&mut value, '"');
                } else {
                    push_char(&mut value, '\\');
                    push_char(&mut value, e);
                }
                proof {
                    assert(value@ =~= before + escape(e));
                }
                self.advance();
                self.advance();
            } else {
                push_char(&mut value, c);
                self.advance();
            }
        }
    }
}

/// The tokens `first`, followed by those that come after them.
pub open spec fn joined(
    first: Seq<SpannedModel>,
    rest: Result<Seq<SpannedModel>, ErrorModel>,
) -> Result<Seq<SpannedModel>, ErrorModel> {
    match rest {
        Ok(more) => Ok(first + more),
        Err(e) => Err(e),
    }
}

proof fn lemma_joined_empty(rest: Result<Seq<SpannedModel>, ErrorModel>)
    ensures
        joined(Seq::empty(), rest) == rest,
{
    match rest {
        Ok(more) => {
            assert(Seq::<SpannedModel>::empty() + more =~= more);
        },
        Err(_) => {},
    }
}

proof fn lemma_joined_step(
    first: Seq<SpannedModel>,
    t: SpannedModel,
    rest: Result<Seq<SpannedModel>, ErrorModel>,
)
    ensures
        joined(first, joined(seq![t], rest)) == joined(first.push(t), rest),
{
    match rest {
        Ok(more) => {
            assert(first + (seq![t] + more) =~= first.push(t) + more);
        },
        Err(_) => {},
    }
}

/// The token that one or two characters of punctuation are, and whether
/// it takes two characters.
fn punctuation_of(c: char, next_is_equals: bool) -> (r: Option<(Token, bool)>)
    ensures
        match r {
            Some((t, two)) => punctuation(c, next_is_equals) matches Some((s, n)) && s.kind()
                == t.kind() && t@ == plain(t.kind()) && n == (if two {
                2int
            } else {
                1int
            }) && !(t is Eof),
            None => punctuation(c, next_is_equals) is None,
        },
{
    if c == '\n' {
        Some((Token::Newline, false))
    } else if c == '(' {
        Some((Token::LParen, false))
    } else if c == ')' {
        Some((Token::RParen, false))
    } else if c == '{' {
        Some((Token::LeftBrace, false))
    } else if c == '}' {
        Some((Token::RightBrace, false))
    } else if c == '[' {
        Some((Token::LeftBracket, false))
    } else if c == ']' {
        Some((Token::RightBracket, false))
    } else if c == ',' {
        Some((Token::Comma, false))
    } else if c == ':' {
        Some((Token::Colon, false))
    } else if c == '+' {
        Some((Token::Plus, false))
    } else if c == '*' {
        Some((Token::Star, false))
    } else if c == '/' {
        Some((Token::Slash, false))
    } else if c == '%' {
        Some((Token::Percent, false))
    } else if c == '-' {
        Some((Token::Minus, false))
    } else if c == '=' {
        if next_is_equals {
            Some((Token::EqualEqual, true))
        } else {
            Some((Token::Equals, false))
        }
    } else if c == '!' {
        if next_is_equals {
            Some((Token::BangEqual, true))
        } else {
            Some((Token::Bang, false))
        }
    } else if c == '<' {
        if next_is_equals {
            Some((Token::LessEqual, true))
        } else {
            Some((Token::Less, false))
        }
    } else if c == '>' {
        if next_is_equals {
            Some((Token::GreaterEqual, true))
        } else {
            Some((Token::Greater, false))
        }
    } else {
        None
    }
}

/// The keyword that a word is, or the word as a name.
pub fn keyword_or_name(word: String) -> (t: Token)
    ensures
        t@ == word_token(word@),
        !(t is Eof),
        !(t is Newline),
        t matches Token::Identifier(n) ==> n@ == word@,
{
    let w = word.as_str();
    if same_text(w, "let") {
        Token::Let
    } else if same_text(w, "print") {
        Token::Print
    } else if same_text(w, "if") {
        Token::If
    } else if same_text(w, "else") {
        Token::Else
    } else if same_text(w, "while") {
        Token::While
    } else if same_text(w, "for") {
        Token::For
    } else if same_text(w, "in") {
        Token::In
    } else if same_text(w, "and") {
        Token::And
    } else if same_text(w, "or") {
        Token::Or
    } else if same_text(w, "not") {
        Token::Not
    } else if same_text(w, "fn") {
        Token::Fn
    } else if same_text(w, "return") {
        Token::Return
    } else if same_text(w, "break") {
        Token::Break
    } else if same_text(w, "continue") {
        Token::Continue
    } else if same_text(w, "length") {
        Token::Length
    } else if same_text(w, "push") {
        Token::Push
    } else if same_text(w, "pop") {
        Token::Pop
    } else if same_text(w, "reverse") {
        Token::Reverse
    } else if same_text(w, "slice") {
        Token::Slice
    } else if same_text(w, "range") {
        Token::Range
    } else if same_text(w, "input") {
        Token::Input
    } else if same_text(w, "read_file") {
        Token::ReadFile
    } else if same_text(w, "write_file") {
        Token::WriteFile
    } else if same_text(w, "keys") {
        Token::Keys
    } else if same_text(w, "values") {
        Token::Values
    } else if same_text(w, "has_key") {
        Token::HasKey
    } else if same_text(w, "true") {
        Token::True
    } else if same_text(w, "false") {
        Token::False
    } else {
        Token::Identifier(word)
    }
}

} // verus!

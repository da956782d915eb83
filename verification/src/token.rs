//! The tokens that the lexer produces.

use vstd::prelude::*;
use vstd::string::*;
use crate::decimal::display_text;
use crate::number::Number;

verus! {

#[derive(Debug, Clone, PartialEq)]
pub enum Token {
    Let,
    Print,
    If,
    Else,
    While,
    For,
    In,
    And,
    Or,
    Not,
    Fn,
    Return,
    Break,
    Continue,
    Length,
    Push,
    Pop,
    Reverse,
    Slice,
    Range,
    Input,
    ReadFile,
    WriteFile,
    Keys,
    Values,
    HasKey,
    True,
    False,
    Identifier(String),
    Number(Number),
    Str(String),
    Plus,
    Minus,
    Star,
    Slash,
    Percent,
    Equals,
    EqualEqual,
    Bang,
    BangEqual,
    Less,
    LessEqual,
    Greater,
    GreaterEqual,
    LParen,
    RParen,
    LeftBrace,
    RightBrace,
    LeftBracket,
    RightBracket,
    Comma,
    Colon,
    Newline,
    Eof,
}

/// A token with the place where it starts.
#[derive(Debug, Clone)]
pub struct Spanned {
    pub token: Token,
    pub line: usize,
    pub column: usize,
}

/// The mathematical model of a token: its kind, the text of a name or a
/// string, and the bits of a number.
pub struct TokenModel {
    pub kind: u8,
    pub text: Seq<char>,
    pub bits: u64,
}

/// The mathematical model of a token with its place.
pub struct SpannedModel {
    pub token: TokenModel,
    pub line: usize,
    pub column: usize,
}

impl View for Token {
    type V = TokenModel;

    open spec fn view(&self) -> TokenModel {
        TokenModel {
            kind: self.kind(),
            text: match self {
                Token::Identifier(n) => n@,
                Token::Str(s) => s@,
                _ => Seq::empty(),
            },
            bits: match self {
                Token::Number(n) => n.bits,
                _ => 0,
            },
        }
    }
}

impl View for Spanned {
    type V = SpannedModel;

    open spec fn view(&self) -> SpannedModel {
        SpannedModel { token: self.token@, line: self.line, column: self.column }
    }
}

impl TokenModel {
    /// How a message names the token.
    pub open spec fn describe(self) -> Seq<char> {
        if self.kind == 0 {
            "'let'"@
        } else if self.kind == 1 {
            "'print'"@
        } else if self.kind == 2 {
            "'if'"@
        } else if self.kind == 3 {
            "'else'"@
        } else if self.kind == 4 {
            "'while'"@
        } else if self.kind == 5 {
            "'for'"@
        } else if self.kind == 6 {
            "'in'"@
        } else if self.kind == 7 {
            "'and'"@
        } else if self.kind == 8 {
            "'or'"@
        } else if self.kind == 9 {
            "'not'"@
        } else if self.kind == 10 {
            "'fn'"@
        } else if self.kind == 11 {
            "'return'"@
        } else if self.kind == 12 {
            "'break'"@
        } else if self.kind == 13 {
            "'continue'"@
        } else if self.kind == 14 {
            "'length'"@
        } else if self.kind == 15 {
            "'push'"@
        } else if self.kind == 16 {
            "'pop'"@
        } else if self.kind == 17 {
            "'reverse'"@
        } else if self.kind == 18 {
            "'slice'"@
        } else if self.kind == 19 {
            "'range'"@
        } else if self.kind == 20 {
            "'input'"@
        } else if self.kind == 21 {
            "'read_file'"@
        } else if self.kind == 22 {
            "'write_file'"@
        } else if self.kind == 23 {
            "'keys'"@
        } else if self.kind == 24 {
            "'values'"@
        } else if self.kind == 25 {
            "'has_key'"@
        } else if self.kind == 26 {
            "'true'"@
        } else if self.kind == 27 {
            "'false'"@
        } else if self.kind == 28 {
            "identifier '"@ + self.text + "'"@
        } else if self.kind == 29 {
            "number '"@ + display_text(self.bits) + "'"@
        } else if self.kind == 30 {
            "string \""@ + self.text + "\""@
        } else if self.kind == 31 {
            "'+'"@
        } else if self.kind == 32 {
            "'-'"@
        } else if self.kind == 33 {
            "'*'"@
        } else if self.kind == 34 {
            "'/'"@
        } else if self.kind == 35 {
            "'%'"@
        } else if self.kind == 36 {
            "'='"@
        } else if self.kind == 37 {
            "'=='"@
        } else if self.kind == 38 {
            "'!'"@
        } else if self.kind == 39 {
            "'!='"@
        } else if self.kind == 40 {
            "'<'"@
        } else if self.kind == 41 {
            "'<='"@
        } else if self.kind == 42 {
            "'>'"@
        } else if self.kind == 43 {
            "'>='"@
        } else if self.kind == 44 {
            "'('"@
        } else if self.kind == 45 {
            "')'"@
        } else if self.kind == 46 {
            "'{'"@
        } else if self.kind == 47 {
            "'}'"@
        } else if self.kind == 48 {
            "'['"@
        } else if self.kind == 49 {
            "']'"@
        } else if self.kind == 50 {
            "','"@
        } else if self.kind == 51 {
            "':'"@
        } else if self.kind == 52 {
            "newline"@
        } else if self.kind == 53 {
            "end of file"@
        } else {
            Seq::empty()
        }
    }
}

/// The text of a token is that of its model.
pub proof fn lemma_text_of_model(t: Token)
    ensures
        t.text() == t@.describe(),
{
}

/// The model of a token that is its kind alone.
pub open spec fn plain(kind: u8) -> TokenModel {
    TokenModel { kind, text: Seq::empty(), bits: 0 }
}

impl Token {
    /// How a message names the token.
    pub open spec fn text(self) -> Seq<char> {
        match self {
            Token::Let => "'let'"@,
            Token::Print => "'print'"@,
            Token::If => "'if'"@,
            Token::Else => "'else'"@,
            Token::While => "'while'"@,
            Token::For => "'for'"@,
            Token::In => "'in'"@,
            Token::And => "'and'"@,
            Token::Or => "'or'"@,
            Token::Not => "'not'"@,
            Token::Fn => "'fn'"@,
            Token::Return => "'return'"@,
            Token::Break => "'break'"@,
            Token::Continue => "'continue'"@,
            Token::True => "'true'"@,
            Token::False => "'false'"@,
            Token::Identifier(n) => "identifier '"@ + n@ + "'"@,
            Token::Number(n) => "number '"@ + display_text(n.bits) + "'"@,
            Token::Str(s) => "string \""@ + s@ + "\""@,
            Token::Plus => "'+'"@,
            Token::Minus => "'-'"@,
            Token::Star => "'*'"@,
            Token::Slash => "'/'"@,
            Token::Percent => "'%'"@,
            Token::Equals => "'='"@,
            Token::EqualEqual => "'=='"@,
            Token::Bang => "'!'"@,
            Token::BangEqual => "'!='"@,
            Token::Less => "'<'"@,
            Token::LessEqual => "'<='"@,
            Token::Greater => "'>'"@,
            Token::GreaterEqual => "'>='"@,
            Token::LParen => "'('"@,
            Token::RParen => "')'"@,
            Token::LeftBrace => "'{'"@,
            Token::RightBrace => "'}'"@,
            Token::LeftBracket => "'['"@,
            Token::RightBracket => "']'"@,
            Token::Comma => "','"@,
            Token::Colon => "':'"@,
            Token::Newline => "newline"@,
            Token::Eof => "end of file"@,
            Token::Length => "'length'"@,
            Token::Push => "'push'"@,
            Token::Pop => "'pop'"@,
            Token::Reverse => "'reverse'"@,
            Token::Slice => "'slice'"@,
            Token::Range => "'range'"@,
            Token::Input => "'input'"@,
            Token::ReadFile => "'read_file'"@,
            Token::WriteFile => "'write_file'"@,
            Token::Keys => "'keys'"@,
            Token::Values => "'values'"@,
            Token::HasKey => "'has_key'"@,
        }
    }

    pub fn to_string(&self) -> (s: String)
        ensures
            s@ == self.text(),
    {
        match self {
            Token::Let => String::from_str("'let'"),
            Token::Print => String::from_str("'print'"),
            Token::If => String::from_str("'if'"),
            Token::Else => String::from_str("'else'"),
            Token::While => String::from_str("'while'"),
            Token::For => String::from_str("'for'"),
            Token::In => String::from_str("'in'"),
            Token::And => String::from_str("'and'"),
            Token::Or => String::from_str("'or'"),
            Token::Not => String::from_str("'not'"),
            Token::Fn => String::from_str("'fn'"),
            Token::Return => String::from_str("'return'"),
            Token::Break => String::from_str("'break'"),
            Token::Continue => String::from_str("'continue'"),
            Token::True => String::from_str("'true'"),
            Token::False => String::from_str("'false'"),
            Token::Identifier(n) => {
                let mut s = String::from_str("identifier '");
                s.append(n.as_str());
                s.append("'");
                s
            },
            Token::Number(n) => {
                let mut s = String::from_str("number '");
                let t = n.to_text();
                s.append(t.as_str());
                s.append("'");
                s
            },
            Token::Str(v) => {
                let mut s = String::from_str("string \"");
                s.append(v.as_str());
                s.append("\"");
                s
            },
            Token::Plus => String::from_str("'+'"),
            Token::Minus => String::from_str("'-'"),
            Token::Star => String::from_str("'*'"),
            Token::Slash => String::from_str("'/'"),
            Token::Percent => String::from_str("'%'"),
            Token::Equals => String::from_str("'='"),
            Token::EqualEqual => String::from_str("'=='"),
            Token::Bang => String::from_str("'!'"),
            Token::BangEqual => String::from_str("'!='"),
            Token::Less => String::from_str("'<'"),
            Token::LessEqual => String::from_str("'<='"),
            Token::Greater => String::from_str("'>'"),
            Token::GreaterEqual => String::from_str("'>='"),
            Token::LParen => String::from_str("'('"),
            Token::RParen => String::from_str("')'"),
            Token::LeftBrace => String::from_str("'{'"),
            Token::RightBrace => String::from_str("'}'"),
            Token::LeftBracket => String::from_str("'['"),
            Token::RightBracket => String::from_str("']'"),
            Token::Comma => String::from_str("','"),
            Token::Colon => String::from_str("':'"),
            Token::Newline => String::from_str("newline"),
            Token::Eof => String::from_str("end of file"),
            Token::Length => String::from_str("'length'"),
            Token::Push => String::from_str("'push'"),
            Token::Pop => String::from_str("'pop'"),
            Token::Reverse => String::from_str("'reverse'"),
            Token::Slice => String::from_str("'slice'"),
            Token::Range => String::from_str("'range'"),
            Token::Input => String::from_str("'input'"),
            Token::ReadFile => String::from_str("'read_file'"),
            Token::WriteFile => String::from_str("'write_file'"),
            Token::Keys => String::from_str("'keys'"),
            Token::Values => String::from_str("'values'"),
            Token::HasKey => String::from_str("'has_key'"),
        }
    }

    /// A number that tells the kinds of tokens apart.
    pub open spec fn kind(self) -> u8 {
        match self {
            Token::Let => 0,
            Token::Print => 1,
            Token::If => 2,
            Token::Else => 3,
            Token::While => 4,
            Token::For => 5,
            Token::In => 6,
            Token::And => 7,
            Token::Or => 8,
            Token::Not => 9,
            Token::Fn => 10,
            Token::Return => 11,
            Token::Break => 12,
            Token::Continue => 13,
            Token::Length => 14,
            Token::Push => 15,
            Token::Pop => 16,
            Token::Reverse => 17,
            Token::Slice => 18,
            Token::Range => 19,
            Token::Input => 20,
            Token::ReadFile => 21,
            Token::WriteFile => 22,
            Token::Keys => 23,
            Token::Values => 24,
            Token::HasKey => 25,
            Token::True => 26,
            Token::False => 27,
            Token::Identifier(_) => 28,
            Token::Number(_) => 29,
            Token::Str(_) => 30,
            Token::Plus => 31,
            Token::Minus => 32,
            Token::Star => 33,
            Token::Slash => 34,
            Token::Percent => 35,
            Token::Equals => 36,
            Token::EqualEqual => 37,
            Token::Bang => 38,
            Token::BangEqual => 39,
            Token::Less => 40,
            Token::LessEqual => 41,
            Token::Greater => 42,
            Token::GreaterEqual => 43,
            Token::LParen => 44,
            Token::RParen => 45,
            Token::LeftBrace => 46,
            Token::RightBrace => 47,
            Token::LeftBracket => 48,
            Token::RightBracket => 49,
            Token::Comma => 50,
            Token::Colon => 51,
            Token::Newline => 52,
            Token::Eof => 53,
        }
    }

    /// Executable form of [`Token::kind`].
    pub fn kind_code(&self) -> (c: u8)
        ensures
            c == self.kind(),
    {
        match self {
            Token::Let => 0,
            Token::Print => 1,
            Token::If => 2,
            Token::Else => 3,
            Token::While => 4,
            Token::For => 5,
            Token::In => 6,
            Token::And => 7,
            Token::Or => 8,
            Token::Not => 9,
            Token::Fn => 10,
            Token::Return => 11,
            Token::Break => 12,
            Token::Continue => 13,
            Token::Length => 14,
            Token::Push => 15,
            Token::Pop => 16,
            Token::Reverse => 17,
            Token::Slice => 18,
            Token::Range => 19,
            Token::Input => 20,
            Token::ReadFile => 21,
            Token::WriteFile => 22,
            Token::Keys => 23,
            Token::Values => 24,
            Token::HasKey => 25,
            Token::True => 26,
            Token::False => 27,
            Token::Identifier(_) => 28,
            Token::Number(_) => 29,
            Token::Str(_) => 30,
            Token::Plus => 31,
            Token::Minus => 32,
            Token::Star => 33,
            Token::Slash => 34,
            Token::Percent => 35,
            Token::Equals => 36,
            Token::EqualEqual => 37,
            Token::Bang => 38,
            Token::BangEqual => 39,
            Token::Less => 40,
            Token::LessEqual => 41,
            Token::Greater => 42,
            Token::GreaterEqual => 43,
            Token::LParen => 44,
            Token::RParen => 45,
            Token::LeftBrace => 46,
            Token::RightBrace => 47,
            Token::LeftBracket => 48,
            Token::RightBracket => 49,
            Token::Comma => 50,
            Token::Colon => 51,
            Token::Newline => 52,
            Token::Eof => 53,
        }
    }
}

} // verus!

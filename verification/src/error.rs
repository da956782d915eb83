//! Source locations and the errors that lexing, parsing, compiling and
//! running a program can produce.

use vstd::prelude::*;
use vstd::string::*;
use crate::text::{decimal, hex_byte, push_char, push_decimal, push_hex_byte};

verus! {

/// A position in the source text.  Line 0 means that the position is not known.
#[derive(Debug, Clone, Copy, PartialEq, Eq, Structural)]
pub struct Span {
    pub line: usize,
    pub column: usize,
}

impl Span {
    pub fn new(line: usize, column: usize) -> (s: Span)
        ensures
            s.line == line,
            s.column == column,
    {
        Span { line, column }
    }

    pub fn unknown() -> (s: Span)
        ensures
            s.line == 0,
            s.column == 0,
            !s.spec_is_known(),
    {
        Span { line: 0, column: 0 }
    }

    pub open spec fn spec_is_known(self) -> bool {
        self.line > 0
    }

    #[verifier::when_used_as_spec(spec_is_known)]
    pub fn is_known(self) -> (b: bool)
        ensures
            b == self.spec_is_known(),
    {
        self.line > 0
    }

    /// The text that names this position in a message.
    pub open spec fn text(self) -> Seq<char> {
        if self.spec_is_known() {
            "line "@ + decimal(self.line as nat) + ", col "@ + decimal(self.column as nat)
        } else {
            "<unknown location>"@
        }
    }

    pub fn to_string(&self) -> (s: String)
        ensures
            s@ == self.text(),
    {
        if self.is_known() {
            let mut s = String::from_str("line ");
            push_decimal(&mut s, self.line as u64);
            s.append(", col ");
            push_decimal(&mut s, self.column as u64);
            s
        } else {
            String::from_str("<unknown location>")
        }
    }
}

/// What went wrong.
#[allow(inconsistent_fields)]
#[derive(Debug, Clone)]
pub enum ErrorKind {
    UnexpectedCharacter(char),
    UnterminatedString,
    UnexpectedToken { expected: String, found: String },
    UnexpectedEof,
    UndefinedVariable(String),
    UndefinedFunction(String),
    TypeError { expected: String, found: String },
    IndexOutOfBounds { index: usize, length: usize },
    InvalidIndex,
    DivisionByZero,
    ArgumentCount { name: String, expected: usize, got: usize },
    EmptyArray,
    SliceOutOfBounds { end: usize, length: usize },
    InvalidSlice { start: usize, end: usize },
    FileRead { path: String, reason: String },
    FileWrite { path: String, reason: String },
    BreakOutsideLoop,
    ContinueOutsideLoop,
    TooManyConstants,
    /// The code of one chunk is longer than a jump can reach.
    CodeTooLong,
    StackUnderflow,
    InvalidOpcode(u8),
}

impl ErrorKind {
    /// The message that describes this kind of error, without its position.
    pub open spec fn message(self) -> Seq<char> {
        self@.message()
    }

    /// Builds the message of [`ErrorKind::message`].
    pub fn describe(&self) -> (s: String)
        ensures
            s@ == self.message(),
    {
        match self {
            ErrorKind::UnexpectedCharacter(c) => {
                let mut s = String::from_str("Unexpected character: '");
                push_char(&mut s, *c);
                s.append("'");
                s
            },
            ErrorKind::UnterminatedString => String::from_str("Unterminated string literal"),
            ErrorKind::UnexpectedToken { expected, found } => {
                let mut s = String::from_str("Expected ");
                s.append(expected.as_str());
                s.append(", found ");
                s.append(found.as_str());
                s
            },
            ErrorKind::UnexpectedEof => String::from_str("Unexpected end of file"),
            ErrorKind::UndefinedVariable(n) => {
                let mut s = String::from_str("Undefined variable: '");
                s.append(n.as_str());
                s.append("'");
                s
            },
            ErrorKind::UndefinedFunction(n) => {
                let mut s = String::from_str("Undefined function: '");
                s.append(n.as_str());
                s.append("'");
                s
            },
            ErrorKind::TypeError { expected, found } => {
                let mut s = String::from_str("Type error: expected ");
                s.append(expected.as_str());
                s.append(", found ");
                s.append(found.as_str());
                s
            },
            ErrorKind::IndexOutOfBounds { index, length } => {
                let mut s = String::from_str("Array index ");
                push_decimal(&mut s, *index as u64);
                s.append(" out of bounds (array length: ");
                push_decimal(&mut s, *length as u64);
                s.append(")");
                s
            },
            ErrorKind::InvalidIndex => String::from_str("Array index must be a number"),
            ErrorKind::DivisionByZero => String::from_str("Division by zero"),
            ErrorKind::ArgumentCount { name, expected, got } => {
                let mut s = String::from_str("Function '");
                s.append(name.as_str());
                s.append("' expected ");
                push_decimal(&mut s, *expected as u64);
                if *expected == 1 {
                    s.append(" argument");
                } else {
                    s.append(" arguments");
                }
                s.append(", got ");
                push_decimal(&mut s, *got as u64);
                s
            },
            ErrorKind::EmptyArray => String::from_str("Cannot pop from an empty array"),
            ErrorKind::SliceOutOfBounds { end, length } => {
                let mut s = String::from_str("slice() end index ");
                push_decimal(&mut s, *end as u64);
                s.append(" out of bounds (array length: ");
                push_decimal(&mut s, *length as u64);
                s.append(")");
                s
            },
            ErrorKind::InvalidSlice { start, end } => {
                let mut s = String::from_str("slice() start index ");
                push_decimal(&mut s, *start as u64);
                s.append(" cannot be greater than end index ");
                push_decimal(&mut s, *end as u64);
                s
            },
            ErrorKind::FileRead { path, reason } => {
                let mut s = String::from_str("Failed to read file '");
                s.append(path.as_str());
                s.append("': ");
                s.append(reason.as_str());
                s
            },
            ErrorKind::FileWrite { path, reason } => {
                let mut s = String::from_str("Failed to write file '");
                s.append(path.as_str());
                s.append("': ");
                s.append(reason.as_str());
                s
            },
            ErrorKind::BreakOutsideLoop => String::from_str("'break' used outside of a loop"),
            ErrorKind::ContinueOutsideLoop => String::from_str(
                "'continue' used outside of a loop",
            ),
            ErrorKind::TooManyConstants => String::from_str(
                "Too many constants in one function (max 256). Split it into smaller functions.",
            ),
            ErrorKind::CodeTooLong => String::from_str(
                "Too much code in one function (max 65535 bytes). Split it into smaller functions.",
            ),
            ErrorKind::StackUnderflow => String::from_str(
                "Internal error: stack underflow (compiler bug)",
            ),
            ErrorKind::InvalidOpcode(b) => {
                let mut s = String::from_str("Internal error: unknown opcode 0x");
                push_hex_byte(&mut s, *b);
                s
            },
        }
    }
}

/// An error together with the place in the source where it arose.
#[derive(Debug, Clone)]
pub struct WhispemError {
    pub kind: ErrorKind,
    pub span: Span,
}

pub type WhispemResult<T> = Result<T, WhispemError>;

/// The mathematical model of an [`ErrorKind`]: texts are sequences of characters.
#[allow(inconsistent_fields)]
pub enum KindModel {
    UnexpectedCharacter(char),
    UnterminatedString,
    UnexpectedToken { expected: Seq<char>, found: Seq<char> },
    UnexpectedEof,
    UndefinedVariable(Seq<char>),
    UndefinedFunction(Seq<char>),
    TypeError { expected: Seq<char>, found: Seq<char> },
    IndexOutOfBounds { index: usize, length: usize },
    InvalidIndex,
    DivisionByZero,
    ArgumentCount { name: Seq<char>, expected: usize, got: usize },
    EmptyArray,
    SliceOutOfBounds { end: usize, length: usize },
    InvalidSlice { start: usize, end: usize },
    FileRead { path: Seq<char>, reason: Seq<char> },
    FileWrite { path: Seq<char>, reason: Seq<char> },
    BreakOutsideLoop,
    ContinueOutsideLoop,
    TooManyConstants,
    /// The code of one chunk is longer than a jump can reach.
    CodeTooLong,
    StackUnderflow,
    InvalidOpcode(u8),
}

/// The mathematical model of a [`WhispemError`].
pub struct ErrorModel {
    pub kind: KindModel,
    pub span: Span,
}

impl KindModel {
    /// The message that describes this kind of error, without its position.
    pub open spec fn message(self) -> Seq<char> {
        match self {
            KindModel::UnexpectedCharacter(c) => "Unexpected character: '"@.push(c) + "'"@,
            KindModel::UnterminatedString => "Unterminated string literal"@,
            KindModel::UnexpectedToken { expected, found } => "Expected "@ + expected + ", found "@
                + found,
            KindModel::UnexpectedEof => "Unexpected end of file"@,
            KindModel::UndefinedVariable(n) => "Undefined variable: '"@ + n + "'"@,
            KindModel::UndefinedFunction(n) => "Undefined function: '"@ + n + "'"@,
            KindModel::TypeError { expected, found } => "Type error: expected "@ + expected
                + ", found "@ + found,
            KindModel::IndexOutOfBounds { index, length } => "Array index "@ + decimal(
                index as nat,
            ) + " out of bounds (array length: "@ + decimal(length as nat) + ")"@,
            KindModel::InvalidIndex => "Array index must be a number"@,
            KindModel::DivisionByZero => "Division by zero"@,
            KindModel::ArgumentCount { name, expected, got } => "Function '"@ + name
                + "' expected "@ + decimal(expected as nat) + (if expected == 1 {
                " argument"@
            } else {
                " arguments"@
            }) + ", got "@ + decimal(got as nat),
            KindModel::EmptyArray => "Cannot pop from an empty array"@,
            KindModel::SliceOutOfBounds { end, length } => "slice() end index "@ + decimal(
                end as nat,
            ) + " out of bounds (array length: "@ + decimal(length as nat) + ")"@,
            KindModel::InvalidSlice { start, end } => "slice() start index "@ + decimal(
                start as nat,
            ) + " cannot be greater than end index "@ + decimal(end as nat),
            KindModel::FileRead { path, reason } => "Failed to read file '"@ + path + "': "@
                + reason,
            KindModel::FileWrite { path, reason } => "Failed to write file '"@ + path + "': "@
                + reason,
            KindModel::BreakOutsideLoop => "'break' used outside of a loop"@,
            KindModel::ContinueOutsideLoop => "'continue' used outside of a loop"@,
            KindModel::TooManyConstants =>
                "Too many constants in one function (max 256). Split it into smaller functions."@,
            KindModel::CodeTooLong =>
                "Too much code in one function (max 65535 bytes). Split it into smaller functions."@,
            KindModel::StackUnderflow => "Internal error: stack underflow (compiler bug)"@,
            KindModel::InvalidOpcode(b) => "Internal error: unknown opcode 0x"@ + hex_byte(b),
        }
    }
}

impl ErrorModel {
    /// The full text of the error: the position in square brackets when it
    /// is known, then the message.
    pub open spec fn text(self) -> Seq<char> {
        if self.span.spec_is_known() {
            "["@ + self.span.text() + "] Error: "@ + self.kind.message()
        } else {
            "Error: "@ + self.kind.message()
        }
    }
}

impl View for ErrorKind {
    type V = KindModel;

    open spec fn view(&self) -> KindModel {
        match self {
            ErrorKind::UnexpectedCharacter(c) => KindModel::UnexpectedCharacter(*c),
            ErrorKind::UnterminatedString => KindModel::UnterminatedString,
            ErrorKind::UnexpectedToken { expected, found } => KindModel::UnexpectedToken {
                expected: expected@,
                found: found@,
            },
            ErrorKind::UnexpectedEof => KindModel::UnexpectedEof,
            ErrorKind::UndefinedVariable(n) => KindModel::UndefinedVariable(n@),
            ErrorKind::UndefinedFunction(n) => KindModel::UndefinedFunction(n@),
            ErrorKind::TypeError { expected, found } => KindModel::TypeError {
                expected: expected@,
                found: found@,
            },
            ErrorKind::IndexOutOfBounds { index, length } => KindModel::IndexOutOfBounds {
                index: *index,
                length: *length,
            },
            ErrorKind::InvalidIndex => KindModel::InvalidIndex,
            ErrorKind::DivisionByZero => KindModel::DivisionByZero,
            ErrorKind::ArgumentCount { name, expected, got } => KindModel::ArgumentCount {
                name: name@,
                expected: *expected,
                got: *got,
            },
            ErrorKind::EmptyArray => KindModel::EmptyArray,
            ErrorKind::SliceOutOfBounds { end, length } => KindModel::SliceOutOfBounds {
                end: *end,
                length: *length,
            },
            ErrorKind::InvalidSlice { start, end } => KindModel::InvalidSlice {
                start: *start,
                end: *end,
            },
            ErrorKind::FileRead { path, reason } => KindModel::FileRead {
                path: path@,
                reason: reason@,
            },
            ErrorKind::FileWrite { path, reason } => KindModel::FileWrite {
                path: path@,
                reason: reason@,
            },
            ErrorKind::BreakOutsideLoop => KindModel::BreakOutsideLoop,
            ErrorKind::ContinueOutsideLoop => KindModel::ContinueOutsideLoop,
            ErrorKind::TooManyConstants => KindModel::TooManyConstants,
            ErrorKind::CodeTooLong => KindModel::CodeTooLong,
            ErrorKind::StackUnderflow => KindModel::StackUnderflow,
            ErrorKind::InvalidOpcode(b) => KindModel::InvalidOpcode(*b),
        }
    }
}

impl View for WhispemError {
    type V = ErrorModel;

    open spec fn view(&self) -> ErrorModel {
        ErrorModel { kind: self.kind@, span: self.span }
    }
}

/// An error of the given kind at the given line, column 0.
pub open spec fn error_at_line(kind: KindModel, line: usize) -> ErrorModel {
    ErrorModel { kind, span: Span { line, column: 0 } }
}

/// An error of the given kind without a known position.
pub open spec fn error_nowhere(kind: KindModel) -> ErrorModel {
    ErrorModel { kind, span: Span { line: 0, column: 0 } }
}


impl WhispemError {
    pub fn new(kind: ErrorKind, span: Span) -> (e: WhispemError)
        ensures
            e.kind == kind,
            e.span == span,
            e@ == (ErrorModel { kind: kind@, span }),
    {
        WhispemError { kind, span }
    }

    /// An error at the given line, with column 0.
    pub fn at_line(kind: ErrorKind, line: usize) -> (e: WhispemError)
        ensures
            e.kind == kind,
            e.span == (Span { line, column: 0 }),
            e@ == error_at_line(kind@, line),
    {
        WhispemError { kind, span: Span { line, column: 0 } }
    }

    /// An error without a known position.
    pub fn runtime(kind: ErrorKind) -> (e: WhispemError)
        ensures
            e.kind == kind,
            e.span == (Span { line: 0, column: 0 }),
            e@ == error_nowhere(kind@),
    {
        WhispemError { kind, span: Span::unknown() }
    }

    /// The full text of the error: the position in square brackets when it
    /// is known, then the message.
    pub open spec fn text(self) -> Seq<char> {
        self@.text()
    }

    pub fn to_string(&self) -> (s: String)
        ensures
            s@ == self.text(),
    {
        let msg = self.kind.describe();
        if self.span.is_known() {
            let mut s = String::from_str("[");
            let place = self.span.to_string();
            s.append(place.as_str());
            s.append("] Error: ");
            s.append(msg.as_str());
            s
        } else {
            let mut s = String::from_str("Error: ");
            s.append(msg.as_str());
            s
        }
    }
}

} // verus!

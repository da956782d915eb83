//! Listings of bytecode for a human reader.

use vstd::prelude::*;
use vstd::string::*;
use crate::chunk::{Chunk, ChunkModel, target_of};
use crate::machine::line_at;
use crate::opcode::OpCode;
use crate::ops::{key_text, number_key};
use crate::text::{decimal, hex_byte, push_char, push_decimal, push_hex_byte};
use crate::value::{Data, Value};

verus! {

pub open spec fn spaces(n: nat) -> Seq<char> {
    Seq::new(n, |i: int| ' ')
}

/// The text with `fill` put before it up to the given width.
pub open spec fn pad_left(s: Seq<char>, width: nat, fill: char) -> Seq<char> {
    if s.len() >= width {
        s
    } else {
        Seq::new((width - s.len()) as nat, |i: int| fill) + s
    }
}

/// The text with spaces put after it up to the given width.
pub open spec fn pad_right(s: Seq<char>, width: nat) -> Seq<char> {
    if s.len() >= width {
        s
    } else {
        s + spaces((width - s.len()) as nat)
    }
}

/// The byte of the code at `at`, or 0 beyond its end.
pub open spec fn byte_at(chunk: ChunkModel, at: int) -> u8 {
    if 0 <= at < chunk.code.len() {
        chunk.code[at]
    } else {
        0
    }
}

/// What a listing says of the constant with the given index.
pub open spec fn annotation(chunk: ChunkModel, index: int) -> Seq<char> {
    if !(0 <= index < chunk.constants.len()) {
        "(out of range)"@
    } else {
        match chunk.constants[index] {
            Data::Str(s) => seq!['\''] + s + seq!['\''],
            Data::Number(bits) => seq!['\''] + key_text(bits) + seq!['\''],
            Data::Bool(b) => if b {
                "'true'"@
            } else {
                "'false'"@
            },
            Data::Nil => "'none'"@,
            Data::Array(_) => "[array]"@,
            Data::Dict(_) => "{dict}"@,
        }
    }
}

/// The start of a line of a listing: the offset in four digits, and the
/// source line, or a bar where it is that of the byte before.
pub open spec fn line_head(chunk: ChunkModel, offset: int) -> Seq<char> {
    let line = line_at(chunk, offset);
    pad_left(decimal(offset as nat), 4, '0') + spaces(2) + (if offset > 0 && line_at(
        chunk,
        offset - 1,
    ) == line {
        "   |  "@
    } else {
        pad_left(decimal(line as nat), 4, ' ') + spaces(2)
    })
}

/// What a listing says of the instruction at `offset`, after the head of
/// its line.
pub open spec fn instruction_text(chunk: ChunkModel, offset: int) -> Seq<char> {
    let byte = byte_at(chunk, offset);
    let a = byte_at(chunk, offset + 1);
    let b = byte_at(chunk, offset + 2);
    match OpCode::decode(byte) {
        None => "UNKNOWN(0x"@ + hex_byte(byte) + ")"@,
        Some(op) => if op.operand_len() == 0 {
            op.mnemonic()
        } else if op.operand_len() == 1 {
            pad_right(op.mnemonic(), 16) + spaces(1) + pad_left(decimal(a as nat), 3, ' ')
                + spaces(4) + annotation(chunk, a as int)
        } else if op is Jump || op is JumpIfFalse || op is JumpIfTrue {
            pad_right(op.mnemonic(), 16) + spaces(8) + "-> "@ + pad_left(
                decimal(target_of(a, b) as nat),
                4,
                '0',
            )
        } else if op is Call {
            pad_right(op.mnemonic(), 16) + spaces(1) + pad_left(decimal(a as nat), 3, ' ')
                + spaces(4) + annotation(chunk, a as int) + " ("@ + decimal(b as nat) + " args)"@
        } else {
            pad_right(op.mnemonic(), 16) + " 0x"@ + hex_byte(a) + " 0x"@ + hex_byte(b)
        },
    }
}

/// The offset of the instruction after the one at `offset`.  A byte that
/// is no instruction counts as one without operands.
pub open spec fn following(chunk: ChunkModel, offset: int) -> int {
    offset + 1 + operand_width(chunk, offset)
}

/// The number of operand bytes of the instruction at `offset`.
pub open spec fn operand_width(chunk: ChunkModel, offset: int) -> nat {
    match OpCode::decode(byte_at(chunk, offset)) {
        None => 0,
        Some(op) => op.operand_len(),
    }
}

/// The lines of a listing from `offset` on.
pub open spec fn listing_from(chunk: ChunkModel, offset: int) -> Seq<char>
    decreases
        (if offset < chunk.code.len() {
            chunk.code.len() - offset
        } else {
            0
        }),
{
    if offset < 0 || offset >= chunk.code.len() {
        Seq::empty()
    } else {
        line_head(chunk, offset) + instruction_text(chunk, offset) + seq!['\n'] + listing_from(
            chunk,
            offset + 1 + operand_width(chunk, offset),
        )
    }
}

/// The listing of a chunk: its name between `==`, and a line for each
/// instruction.
pub open spec fn listing(chunk: ChunkModel) -> Seq<char> {
    "== "@ + chunk.name + " ==\n"@ + listing_from(chunk, 0)
}

fn push_fill(out: &mut String, n: usize, fill: char)
    ensures
        final(out)@ == old(out)@ + Seq::new(n as nat, |i: int| fill),
{
    let mut i: usize = 0;
    proof {
        assert(old(out)@ + Seq::new(0, |i: int| fill) =~= old(out)@);
    }
    while i < n
        invariant
            i <= n,
            out@ == old(out)@ + Seq::new(i as nat, |j: int| fill),
        decreases n - i,
    {
        push_char(out, fill);
        i += 1;
        assert(old(out)@ + Seq::new(i as nat, |j: int| fill) =~= (old(out)@ + Seq::new(
            (i - 1) as nat,
            |j: int| fill,
        )).push(fill));
    }
}

/// The number of characters of a text.
fn char_count(s: &str) -> (n: usize)
    ensures
        n == s@.len(),
{
    s.unicode_len()
}

/// Appends the decimal notation of `n`, with `fill` before it up to `width`.
fn push_padded_number(out: &mut String, n: usize, width: usize, fill: char)
    ensures
        final(out)@ == old(out)@ + pad_left(decimal(n as nat), width as nat, fill),
{
    let mut digits = String::new();
    push_decimal(&mut digits, n as u64);
    assert(digits@ =~= decimal(n as nat));
    let len = char_count(digits.as_str());
    if len < width {
        push_fill(out, width - len, fill);
    }
    out.append(digits.as_str());
    proof {
        if len < width {
            assert(old(out)@ + Seq::new((width - len) as nat, |i: int| fill) + digits@
                =~= old(out)@ + (Seq::new((width - len) as nat, |i: int| fill) + digits@));
        }
    }
}

/// Appends a name, with spaces after it up to 16 characters.
fn push_name(out: &mut String, name: &str)
    ensures
        final(out)@ == old(out)@ + pad_right(name@, 16),
{
    out.append(name);
    let len = char_count(name);
    if len < 16 {
        push_fill(out, 16 - len, ' ');
        proof {
            assert(old(out)@ + name@ + spaces((16 - len) as nat) =~= old(out)@ + (name@ + spaces(
                (16 - len) as nat,
            )));
        }
    }
}

impl Chunk {
    fn byte_or_zero(&self, at: usize) -> (b: u8)
        ensures
            b == byte_at(self@, at as int),
    {
        if at < self.code.len() {
            self.code[at]
        } else {
            0
        }
    }

    fn line_or_zero(&self, at: usize) -> (line: usize)
        ensures
            line == line_at(self@, at as int),
    {
        if at < self.lines.len() {
            self.lines[at]
        } else {
            0
        }
    }

    /// What a listing says of the constant with the given index.
    pub fn constant_annotation(&self, idx: usize) -> (s: String)
        ensures
            s@ == annotation(self@, idx as int),
    {
        if idx >= self.constants.len() {
            return String::from_str("(out of range)");
        }
        assert(self@.constants[idx as int] == self.constants@[idx as int]@);
        match &self.constants[idx] {
            Value::Str(text) => {
                let mut s = String::new();
                push_char(&mut s, '\'');
                s.append(text.as_str());
                push_char(&mut s, '\'');
                assert(s@ =~= seq!['\''] + text@ + seq!['\'']);
                s
            },
            Value::Number(n) => {
                let mut s = String::new();
                push_char(&mut s, '\'');
                let t = number_key(*n);
                s.append(t.as_str());
                push_char(&mut s, '\'');
                assert(s@ =~= seq!['\''] + key_text(n.bits) + seq!['\'']);
                s
            },
            Value::Bool(b) => {
                if *b {
                    String::from_str("'true'")
                } else {
                    String::from_str("'false'")
                }
            },
            Value::Nil => String::from_str("'none'"),
            Value::Array(_) => String::from_str("[array]"),
            Value::Dict(_) => String::from_str("{dict}"),
        }
    }

    /// Appends the head of the line of the instruction at `offset`.
    fn push_head(&self, offset: usize, out: &mut String)
        ensures
            final(out)@ == old(out)@ + line_head(self@, offset as int),
    {
        let ghost start = out@;
        push_padded_number(out, offset, 4, '0');
        push_fill(out, 2, ' ');
        let line = self.line_or_zero(offset);
        if offset > 0 && self.line_or_zero(offset - 1) == line {
            out.append("   |  ");
        } else {
            push_padded_number(out, line, 4, ' ');
            push_fill(out, 2, ' ');
        }
        proof {
            assert(out@ =~= start + line_head(self@, offset as int));
        }
    }

    /// Appends an instruction's name, the index of a constant, and what a
    /// listing says of the constant.
    fn push_with_constant(&self, op: OpCode, index: u8, out: &mut String)
        ensures
            final(out)@ == old(out)@ + (pad_right(op.mnemonic(), 16) + spaces(1) + pad_left(
                decimal(index as nat),
                3,
                ' ',
            ) + spaces(4) + annotation(self@, index as int)),
    {
        let ghost start = out@;
        push_name(out, op.name());
        push_fill(out, 1, ' ');
        push_padded_number(out, index as usize, 3, ' ');
        push_fill(out, 4, ' ');
        let note = self.constant_annotation(index as usize);
        out.append(note.as_str());
        proof {
            assert(out@ =~= start + (pad_right(op.mnemonic(), 16) + spaces(1) + pad_left(
                decimal(index as nat),
                3,
                ' ',
            ) + spaces(4) + annotation(self@, index as int)));
        }
    }

    /// Appends what a listing says of an instruction with two operand bytes.
    fn push_wide(&self, op: OpCode, a: u8, b: u8, out: &mut String)
        requires
            op.operand_len() == 2,
        ensures
            final(out)@ == old(out)@ + (if op is Jump || op is JumpIfFalse || op is JumpIfTrue {
                pad_right(op.mnemonic(), 16) + spaces(8) + "-> "@ + pad_left(
                    decimal(target_of(a, b) as nat),
                    4,
                    '0',
                )
            } else if op is Call {
                pad_right(op.mnemonic(), 16) + spaces(1) + pad_left(decimal(a as nat), 3, ' ')
                    + spaces(4) + annotation(self@, a as int) + " ("@ + decimal(b as nat)
                    + " args)"@
            } else {
                pad_right(op.mnemonic(), 16) + " 0x"@ + hex_byte(a) + " 0x"@ + hex_byte(b)
            }),
    {
        let ghost start = out@;
        match op {
            OpCode::Jump | OpCode::JumpIfFalse | OpCode::JumpIfTrue => {
                push_name(out, op.name());
                push_fill(out, 8, ' ');
                out.append("-> ");
                push_padded_number(out, (a as usize) * 256 + (b as usize), 4, '0');
                proof {
                    assert(out@ =~= start + (pad_right(op.mnemonic(), 16) + spaces(8) + "-> "@
                        + pad_left(decimal(target_of(a, b) as nat), 4, '0')));
                }
            },
            OpCode::Call => {
                self.push_with_constant(op, a, out);
                out.append(" (");
                push_decimal(out, b as u64);
                out.append(" args)");
                proof {
                    assert(out@ =~= start + (pad_right(op.mnemonic(), 16) + spaces(1) + pad_left(
                        decimal(a as nat),
                        3,
                        ' ',
                    ) + spaces(4) + annotation(self@, a as int) + " ("@ + decimal(b as nat)
                        + " args)"@));
                }
            },
            _ => {
                push_name(out, op.name());
                out.append(" 0x");
                push_hex_byte(out, a);
                out.append(" 0x");
                push_hex_byte(out, b);
                proof {
                    assert(out@ =~= start + (pad_right(op.mnemonic(), 16) + " 0x"@ + hex_byte(a)
                        + " 0x"@ + hex_byte(b)));
                }
            },
        }
    }

    /// Appends what a listing says of the instruction at `offset`.
    fn push_body(&self, offset: usize, out: &mut String)
        requires
            offset < self@.code.len(),
        ensures
            final(out)@ == old(out)@ + instruction_text(self@, offset as int),
    {
        let ghost start = out@;
        let n: usize = self.code.len();
        let byte = self.byte_or_zero(offset);
        let a: u8 = if offset < n - 1 { self.code[offset + 1] } else { 0 };
        let b: u8 = if offset < n - 1 && offset + 1 < n - 1 { self.code[offset + 2] } else { 0 };
        assert(a == byte_at(self@, offset + 1));
        assert(b == byte_at(self@, offset + 2));
        match OpCode::from_byte(byte) {
            None => {
                out.append("UNKNOWN(0x");
                push_hex_byte(out, byte);
                out.append(")");
                proof {
                    assert(out@ =~= start + ("UNKNOWN(0x"@ + hex_byte(byte) + ")"@));
                }
            },
            Some(op) => {
                let size = op.operand_size();
                if size == 0 {
                    out.append(op.name());
                } else if size == 1 {
                    self.push_with_constant(op, a, out);
                } else {
                    self.push_wide(op, a, b, out);
                }
            },
        }
    }

    /// Appends the line of the instruction at `offset` to `out`, and
    /// returns the offset of the instruction after it.
    pub fn disassemble_instruction(&self, offset: usize, out: &mut String) -> (next: usize)
        requires
            offset < self@.code.len(),
        ensures
            final(out)@ == old(out)@ + (line_head(self@, offset as int) + instruction_text(
                self@,
                offset as int,
            ) + seq!['\n']),
            next == following(self@, offset as int) || (next == usize::MAX && following(
                self@,
                offset as int,
            ) > usize::MAX),
            next > offset,
    {
        let ghost start = out@;
        self.push_head(offset, out);
        self.push_body(offset, out);
        push_char(out, '\n');
        proof {
            assert(out@ =~= start + (line_head(self@, offset as int) + instruction_text(
                self@,
                offset as int,
            ) + seq!['\n']));
        }
        let size: usize = match OpCode::from_byte(self.byte_or_zero(offset)) {
            None => 0,
            Some(op) => op.operand_size(),
        };
        let n: usize = self.code.len();
        assert(offset < n);
        if size <= usize::MAX - offset - 1 {
            offset + 1 + size
        } else {
            usize::MAX
        }
    }

    /// The listing of the chunk.
    pub fn disassemble(&self) -> (s: String)
        ensures
            s@ == listing(self@),
    {
        let mut s = String::from_str("== ");
        s.append(self.name.as_str());
        s.append(" ==\n");
        let ghost top = s@;
        let mut offset: usize = 0;
        proof {
            assert(top + listing_from(self@, 0) =~= listing(self@));
        }
        while offset < self.code.len()
            invariant
                s@ + listing_from(self@, offset as int) == listing(self@),
            decreases
                (if offset < self.code.len() {
                    self.code.len() - offset
                } else {
                    0
                }),
        {
            let ghost before = s@;
            let ghost old_offset = offset;
            let ghost rest = listing_from(self@, following(self@, offset as int));
            let ghost line = line_head(self@, offset as int) + instruction_text(
                self@,
                offset as int,
            ) + seq!['\n'];
            offset = self.disassemble_instruction(offset, &mut s);
            proof {
                assert(before + (line + rest) =~= (before + line) + rest);
                if offset != following(self@, old_offset as int) {
                    assert(listing_from(self@, offset as int) =~= Seq::<char>::empty());
                    assert(rest =~= Seq::<char>::empty());
                }
            }
        }
        proof {
            assert(s@ + Seq::<char>::empty() =~= s@);
        }
        s
    }
}

} // verus!

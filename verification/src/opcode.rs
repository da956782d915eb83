//! The instruction set of the virtual machine.

use vstd::prelude::*;

verus! {

/// One instruction tag.  Each is followed in the bytecode by zero, one or
/// two operand bytes.
#[derive(Debug, Clone, Copy, PartialEq, Eq, Structural)]
pub enum OpCode {
    PushConst,
    PushTrue,
    PushFalse,
    PushNone,
    Load,
    Store,
    Add,
    Sub,
    Mul,
    Div,
    Mod,
    Neg,
    Eq,
    Neq,
    Lt,
    Lte,
    Gt,
    Gte,
    Not,
    Jump,
    JumpIfFalse,
    JumpIfTrue,
    /// Tests the top of the stack without removing it; used by `and`.
    PeekJumpIfFalse,
    /// Tests the top of the stack without removing it; used by `or`.
    PeekJumpIfTrue,
    Call,
    Return,
    ReturnNone,
    MakeArray,
    MakeDict,
    GetIndex,
    SetIndex,
    Print,
    Pop,
    Halt,
}

impl OpCode {
    /// The byte that encodes this instruction.
    pub open spec fn byte(self) -> u8 {
        match self {
            OpCode::PushConst => 0x00,
            OpCode::PushTrue => 0x01,
            OpCode::PushFalse => 0x02,
            OpCode::PushNone => 0x03,
            OpCode::Load => 0x10,
            OpCode::Store => 0x11,
            OpCode::Add => 0x20,
            OpCode::Sub => 0x21,
            OpCode::Mul => 0x22,
            OpCode::Div => 0x23,
            OpCode::Mod => 0x24,
            OpCode::Neg => 0x25,
            OpCode::Eq => 0x30,
            OpCode::Neq => 0x31,
            OpCode::Lt => 0x32,
            OpCode::Lte => 0x33,
            OpCode::Gt => 0x34,
            OpCode::Gte => 0x35,
            OpCode::Not => 0x36,
            OpCode::Jump => 0x40,
            OpCode::JumpIfFalse => 0x41,
            OpCode::JumpIfTrue => 0x42,
            OpCode::PeekJumpIfFalse => 0x43,
            OpCode::PeekJumpIfTrue => 0x44,
            OpCode::Call => 0x50,
            OpCode::Return => 0x51,
            OpCode::ReturnNone => 0x52,
            OpCode::MakeArray => 0x60,
            OpCode::MakeDict => 0x61,
            OpCode::GetIndex => 0x62,
            OpCode::SetIndex => 0x63,
            OpCode::Print => 0x70,
            OpCode::Pop => 0x71,
            OpCode::Halt => 0xFF,
        }
    }

    /// The instruction that a byte encodes, if any.
    pub open spec fn decode(byte: u8) -> Option<OpCode> {
        if byte == 0x00 {
            Some(OpCode::PushConst)
        } else if byte == 0x01 {
            Some(OpCode::PushTrue)
        } else if byte == 0x02 {
            Some(OpCode::PushFalse)
        } else if byte == 0x03 {
            Some(OpCode::PushNone)
        } else if byte == 0x10 {
            Some(OpCode::Load)
        } else if byte == 0x11 {
            Some(OpCode::Store)
        } else if byte == 0x20 {
            Some(OpCode::Add)
        } else if byte == 0x21 {
            Some(OpCode::Sub)
        } else if byte == 0x22 {
            Some(OpCode::Mul)
        } else if byte == 0x23 {
            Some(OpCode::Div)
        } else if byte == 0x24 {
            Some(OpCode::Mod)
        } else if byte == 0x25 {
            Some(OpCode::Neg)
        } else if byte == 0x30 {
            Some(OpCode::Eq)
        } else if byte == 0x31 {
            Some(OpCode::Neq)
        } else if byte == 0x32 {
            Some(OpCode::Lt)
        } else if byte == 0x33 {
            Some(OpCode::Lte)
        } else if byte == 0x34 {
            Some(OpCode::Gt)
        } else if byte == 0x35 {
            Some(OpCode::Gte)
        } else if byte == 0x36 {
            Some(OpCode::Not)
        } else if byte == 0x40 {
            Some(OpCode::Jump)
        } else if byte == 0x41 {
            Some(OpCode::JumpIfFalse)
        } else if byte == 0x42 {
            Some(OpCode::JumpIfTrue)
        } else if byte == 0x43 {
            Some(OpCode::PeekJumpIfFalse)
        } else if byte == 0x44 {
            Some(OpCode::PeekJumpIfTrue)
        } else if byte == 0x50 {
            Some(OpCode::Call)
        } else if byte == 0x51 {
            Some(OpCode::Return)
        } else if byte == 0x52 {
            Some(OpCode::ReturnNone)
        } else if byte == 0x60 {
            Some(OpCode::MakeArray)
        } else if byte == 0x61 {
            Some(OpCode::MakeDict)
        } else if byte == 0x62 {
            Some(OpCode::GetIndex)
        } else if byte == 0x63 {
            Some(OpCode::SetIndex)
        } else if byte == 0x70 {
            Some(OpCode::Print)
        } else if byte == 0x71 {
            Some(OpCode::Pop)
        } else if byte == 0xFF {
            Some(OpCode::Halt)
        } else {
            None
        }
    }

    /// The number of operand bytes that follow this instruction.
    pub open spec fn operand_len(self) -> nat {
        match self {
            OpCode::PushConst | OpCode::Load | OpCode::Store | OpCode::MakeArray
            | OpCode::MakeDict => 1,
            OpCode::Jump | OpCode::JumpIfFalse | OpCode::JumpIfTrue | OpCode::PeekJumpIfFalse
            | OpCode::PeekJumpIfTrue | OpCode::Call => 2,
            _ => 0,
        }
    }

    /// Whether the two operand bytes of this instruction form a jump target.
    pub open spec fn is_jump(self) -> bool {
        match self {
            OpCode::Jump | OpCode::JumpIfFalse | OpCode::JumpIfTrue | OpCode::PeekJumpIfFalse
            | OpCode::PeekJumpIfTrue => true,
            _ => false,
        }
    }

    /// The name under which a disassembly lists this instruction.
    pub open spec fn mnemonic(self) -> Seq<char> {
        match self {
            OpCode::PushConst => "PUSH_CONST"@,
            OpCode::PushTrue => "PUSH_TRUE"@,
            OpCode::PushFalse => "PUSH_FALSE"@,
            OpCode::PushNone => "PUSH_NONE"@,
            OpCode::Load => "LOAD"@,
            OpCode::Store => "STORE"@,
            OpCode::Add => "ADD"@,
            OpCode::Sub => "SUB"@,
            OpCode::Mul => "MUL"@,
            OpCode::Div => "DIV"@,
            OpCode::Mod => "MOD"@,
            OpCode::Neg => "NEG"@,
            OpCode::Eq => "EQ"@,
            OpCode::Neq => "NEQ"@,
            OpCode::Lt => "LT"@,
            OpCode::Lte => "LTE"@,
            OpCode::Gt => "GT"@,
            OpCode::Gte => "GTE"@,
            OpCode::Not => "NOT"@,
            OpCode::Jump => "JUMP"@,
            OpCode::JumpIfFalse => "JUMP_IF_FALSE"@,
            OpCode::JumpIfTrue => "JUMP_IF_TRUE"@,
            OpCode::PeekJumpIfFalse => "PEEK_JUMP_IF_FALSE"@,
            OpCode::PeekJumpIfTrue => "PEEK_JUMP_IF_TRUE"@,
            OpCode::Call => "CALL"@,
            OpCode::Return => "RETURN"@,
            OpCode::ReturnNone => "RETURN_NONE"@,
            OpCode::MakeArray => "MAKE_ARRAY"@,
            OpCode::MakeDict => "MAKE_DICT"@,
            OpCode::GetIndex => "GET_INDEX"@,
            OpCode::SetIndex => "SET_INDEX"@,
            OpCode::Print => "PRINT"@,
            OpCode::Pop => "POP"@,
            OpCode::Halt => "HALT"@,
        }
    }

    /// Encodes the instruction as its byte.
    pub fn to_byte(self) -> (b: u8)
        ensures
            b == self.byte(),
            OpCode::decode(b) == Some(self),
    {
        match self {
            OpCode::PushConst => 0x00,
            OpCode::PushTrue => 0x01,
            OpCode::PushFalse => 0x02,
            OpCode::PushNone => 0x03,
            OpCode::Load => 0x10,
            OpCode::Store => 0x11,
            OpCode::Add => 0x20,
            OpCode::Sub => 0x21,
            OpCode::Mul => 0x22,
            OpCode::Div => 0x23,
            OpCode::Mod => 0x24,
            OpCode::Neg => 0x25,
            OpCode::Eq => 0x30,
            OpCode::Neq => 0x31,
            OpCode::Lt => 0x32,
            OpCode::Lte => 0x33,
            OpCode::Gt => 0x34,
            OpCode::Gte => 0x35,
            OpCode::Not => 0x36,
            OpCode::Jump => 0x40,
            OpCode::JumpIfFalse => 0x41,
            OpCode::JumpIfTrue => 0x42,
            OpCode::PeekJumpIfFalse => 0x43,
            OpCode::PeekJumpIfTrue => 0x44,
            OpCode::Call => 0x50,
            OpCode::Return => 0x51,
            OpCode::ReturnNone => 0x52,
            OpCode::MakeArray => 0x60,
            OpCode::MakeDict => 0x61,
            OpCode::GetIndex => 0x62,
            OpCode::SetIndex => 0x63,
            OpCode::Print => 0x70,
            OpCode::Pop => 0x71,
            OpCode::Halt => 0xFF,
        }
    }

    /// Decodes a byte: `Some` exactly for the bytes that encode an instruction.
    pub fn from_byte(byte: u8) -> (r: Option<OpCode>)
        ensures
            r == OpCode::decode(byte),
            r matches Some(op) ==> op.byte() == byte,
            r is None ==> forall|op: OpCode| op.byte() != byte,
    {
        match byte {
            0x00 => Some(OpCode::PushConst),
            0x01 => Some(OpCode::PushTrue),
            0x02 => Some(OpCode::PushFalse),
            0x03 => Some(OpCode::PushNone),
            0x10 => Some(OpCode::Load),
            0x11 => Some(OpCode::Store),
            0x20 => Some(OpCode::Add),
            0x21 => Some(OpCode::Sub),
            0x22 => Some(OpCode::Mul),
            0x23 => Some(OpCode::Div),
            0x24 => Some(OpCode::Mod),
            0x25 => Some(OpCode::Neg),
            0x30 => Some(OpCode::Eq),
            0x31 => Some(OpCode::Neq),
            0x32 => Some(OpCode::Lt),
            0x33 => Some(OpCode::Lte),
            0x34 => Some(OpCode::Gt),
            0x35 => Some(OpCode::Gte),
            0x36 => Some(OpCode::Not),
            0x40 => Some(OpCode::Jump),
            0x41 => Some(OpCode::JumpIfFalse),
            0x42 => Some(OpCode::JumpIfTrue),
            0x43 => Some(OpCode::PeekJumpIfFalse),
            0x44 => Some(OpCode::PeekJumpIfTrue),
            0x50 => Some(OpCode::Call),
            0x51 => Some(OpCode::Return),
            0x52 => Some(OpCode::ReturnNone),
            0x60 => Some(OpCode::MakeArray),
            0x61 => Some(OpCode::MakeDict),
            0x62 => Some(OpCode::GetIndex),
            0x63 => Some(OpCode::SetIndex),
            0x70 => Some(OpCode::Print),
            0x71 => Some(OpCode::Pop),
            0xFF => Some(OpCode::Halt),
            _ => None,
        }
    }

    pub fn name(self) -> (s: &'static str)
        ensures
            s@ == self.mnemonic(),
    {
        match self {
            OpCode::PushConst => "PUSH_CONST",
            OpCode::PushTrue => "PUSH_TRUE",
            OpCode::PushFalse => "PUSH_FALSE",
            OpCode::PushNone => "PUSH_NONE",
            OpCode::Load => "LOAD",
            OpCode::Store => "STORE",
            OpCode::Add => "ADD",
            OpCode::Sub => "SUB",
            OpCode::Mul => "MUL",
            OpCode::Div => "DIV",
            OpCode::Mod => "MOD",
            OpCode::Neg => "NEG",
            OpCode::Eq => "EQ",
            OpCode::Neq => "NEQ",
            OpCode::Lt => "LT",
            OpCode::Lte => "LTE",
            OpCode::Gt => "GT",
            OpCode::Gte => "GTE",
            OpCode::Not => "NOT",
            OpCode::Jump => "JUMP",
            OpCode::JumpIfFalse => "JUMP_IF_FALSE",
            OpCode::JumpIfTrue => "JUMP_IF_TRUE",
            OpCode::PeekJumpIfFalse => "PEEK_JUMP_IF_FALSE",
            OpCode::PeekJumpIfTrue => "PEEK_JUMP_IF_TRUE",
            OpCode::Call => "CALL",
            OpCode::Return => "RETURN",
            OpCode::ReturnNone => "RETURN_NONE",
            OpCode::MakeArray => "MAKE_ARRAY",
            OpCode::MakeDict => "MAKE_DICT",
            OpCode::GetIndex => "GET_INDEX",
            OpCode::SetIndex => "SET_INDEX",
            OpCode::Print => "PRINT",
            OpCode::Pop => "POP",
            OpCode::Halt => "HALT",
        }
    }

    pub fn operand_size(self) -> (n: usize)
        ensures
            n == self.operand_len(),
            n <= 2,
    {
        match self {
            OpCode::PushConst | OpCode::Load | OpCode::Store | OpCode::MakeArray
            | OpCode::MakeDict => 1,
            OpCode::Jump | OpCode::JumpIfFalse | OpCode::JumpIfTrue | OpCode::PeekJumpIfFalse
            | OpCode::PeekJumpIfTrue | OpCode::Call => 2,
            _ => 0,
        }
    }
}

/// Encoding and decoding are inverse to each other: a byte decodes to an
/// instruction exactly when that instruction encodes to the byte.
pub proof fn lemma_decode_inverts_byte(op: OpCode, byte: u8)
    ensures
        OpCode::decode(byte) == Some(op) <==> op.byte() == byte,
{
}

} // verus!

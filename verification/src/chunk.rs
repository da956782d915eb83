//! Compiled code units: bytecode, the source line of each byte, and a pool
//! of constants.

use vstd::prelude::*;
use vstd::string::*;
use crate::opcode::OpCode;
use crate::value::{Data, Value, views};

verus! {

/// The largest number of constants that one chunk can hold.
pub const MAX_CONSTANTS: usize = 256;

/// The mathematical model of a chunk.
pub struct ChunkModel {
    pub code: Seq<u8>,
    pub constants: Seq<Data>,
    pub lines: Seq<usize>,
    pub name: Seq<char>,
    pub param_count: usize,
}

/// The high byte of a jump target.
pub open spec fn high_byte(target: int) -> u8 {
    ((target / 256) % 256) as u8
}

/// The low byte of a jump target.
pub open spec fn low_byte(target: int) -> u8 {
    (target % 256) as u8
}

/// The jump target that two operand bytes hold, high byte first.
pub open spec fn target_of(hi: u8, lo: u8) -> int {
    hi * 256 + lo
}

/// The code with the low 16 bits of `target` in the two bytes at `at`,
/// the high byte first.
pub open spec fn patched(code: Seq<u8>, at: int, target: int) -> Seq<u8> {
    Seq::new(
        code.len(),
        |i: int|
            if i == at {
                high_byte(target)
            } else if i == at + 1 {
                low_byte(target)
            } else {
                code[i]
            },
    )
}

/// Whether no string occurs twice among the constants.
pub open spec fn distinct_strings(constants: Seq<Data>) -> bool {
    forall|i: int, j: int|
        0 <= i < j < constants.len() && constants[i] is Str ==> #[trigger] constants[i]
            != #[trigger] constants[j]
}

impl ChunkModel {
    /// Line table and code have one entry per byte, the pool is within its
    /// limit, and no string occurs twice in it.
    pub open spec fn wf(self) -> bool {
        &&& self.code.len() == self.lines.len()
        &&& self.constants.len() <= MAX_CONSTANTS
        &&& distinct_strings(self.constants)
    }

    pub open spec fn emit_byte(self, byte: u8, line: usize) -> ChunkModel {
        ChunkModel { code: self.code.push(byte), lines: self.lines.push(line), ..self }
    }

    pub open spec fn emit_op(self, op: OpCode, line: usize) -> ChunkModel {
        self.emit_byte(op.byte(), line)
    }

    pub open spec fn emit_op_u8(self, op: OpCode, operand: u8, line: usize) -> ChunkModel {
        self.emit_byte(op.byte(), line).emit_byte(operand, line)
    }

    /// The operand follows the instruction with its high byte first.
    pub open spec fn emit_op_u16(self, op: OpCode, operand: u16, line: usize) -> ChunkModel {
        self.emit_byte(op.byte(), line).emit_byte(high_byte(operand as int), line).emit_byte(
            low_byte(operand as int),
            line,
        )
    }

    /// A jump whose target is not known yet holds `0xFFFF` in its place.
    pub open spec fn emit_jump(self, op: OpCode, line: usize) -> ChunkModel {
        self.emit_op_u16(op, 0xFFFF, line)
    }

    /// Writes the low 16 bits of `target` into the two bytes at `at`.
    pub open spec fn patch_jump(self, at: int, target: int) -> ChunkModel {
        ChunkModel { code: patched(self.code, at, target), ..self }
    }

    /// Whether adding `value` to the pool finds it there already.
    pub open spec fn holds(self, value: Data) -> bool {
        value is Str && self.constants.contains(value)
    }

    /// The index under which `value` is found after it has been added.
    pub open spec fn constant_index(self, value: Data) -> int {
        if self.holds(value) {
            self.constants.index_of(value)
        } else {
            self.constants.len() as int
        }
    }

    /// A string that the pool holds is not added again; every other value
    /// goes to the end of the pool.
    pub open spec fn add_constant(self, value: Data) -> ChunkModel {
        if self.holds(value) {
            self
        } else {
            ChunkModel { constants: self.constants.push(value), ..self }
        }
    }

    /// Whether `value` can be added without the pool growing beyond its limit.
    pub open spec fn has_room(self, value: Data) -> bool {
        self.holds(value) || self.constants.len() < MAX_CONSTANTS
    }
}

/// A compiled code unit.
#[derive(Debug, Clone)]
pub struct Chunk {
    pub code: Vec<u8>,
    pub constants: Vec<Value>,
    pub lines: Vec<usize>,
    pub name: String,
    /// How many arguments the function takes that this chunk holds.
    pub param_count: usize,
}

impl View for Chunk {
    type V = ChunkModel;

    open spec fn view(&self) -> ChunkModel {
        ChunkModel {
            code: self.code@,
            constants: views(self.constants@),
            lines: self.lines@,
            name: self.name@,
            param_count: self.param_count,
        }
    }
}

impl Chunk {
    pub fn new(name: &str) -> (c: Chunk)
        ensures
            c@.code.len() == 0,
            c@.constants.len() == 0,
            c@.lines.len() == 0,
            c@.name == name@,
            c@.param_count == 0,
            c@.wf(),
    {
        Chunk {
            code: Vec::new(),
            constants: Vec::new(),
            lines: Vec::new(),
            name: String::from_str(name),
            param_count: 0,
        }
    }

    pub fn emit_byte(&mut self, byte: u8, line: usize)
        ensures
            final(self)@ == old(self)@.emit_byte(byte, line),
    {
        self.code.push(byte);
        self.lines.push(line);
    }

    pub fn emit_op(&mut self, op: OpCode, line: usize)
        ensures
            final(self)@ == old(self)@.emit_op(op, line),
    {
        self.emit_byte(op.to_byte(), line);
    }

    pub fn emit_op_u8(&mut self, op: OpCode, operand: u8, line: usize)
        ensures
            final(self)@ == old(self)@.emit_op_u8(op, operand, line),
    {
        self.emit_byte(op.to_byte(), line);
        self.emit_byte(operand, line);
    }

    pub fn emit_op_u16(&mut self, op: OpCode, operand: u16, line: usize)
        ensures
            final(self)@ == old(self)@.emit_op_u16(op, operand, line),
    {
        self.emit_byte(op.to_byte(), line);
        self.emit_byte((operand / 256) as u8, line);
        self.emit_byte((operand % 256) as u8, line);
    }

    /// Emits a jump with a placeholder for its target, and returns the
    /// position of the placeholder.
    pub fn emit_jump(&mut self, op: OpCode, line: usize) -> (at: usize)
        ensures
            final(self)@ == old(self)@.emit_jump(op, line),
            at == old(self)@.code.len() + 1,
    {
        self.emit_byte(op.to_byte(), line);
        self.emit_byte(0xFF, line);
        self.emit_byte(0xFF, line);
        self.code.len() - 2
    }

    /// Writes `target` into the placeholder at `patch_at`.
    pub fn patch_jump(&mut self, patch_at: usize, target: usize)
        requires
            patch_at + 1 < old(self)@.code.len(),
        ensures
            final(self)@ == old(self)@.patch_jump(patch_at as int, target as int),
    {
        let hi: u8 = ((target / 256) % 256) as u8;
        let lo: u8 = (target % 256) as u8;
        let n: usize = self.code.len();
        assert(patch_at + 1 < n);
        self.code.set(patch_at, hi);
        self.code.set(patch_at + 1, lo);
        assert(self.code@ =~= patched(old(self).code@, patch_at as int, target as int));
    }

    /// The index of the first string constant equal to `s`.
    fn find_string(&self, s: &String) -> (r: Option<usize>)
        ensures
            match r {
                Some(i) => i < self@.constants.len() && self@.constants[i as int] == Data::Str(s@),
                None => !self@.constants.contains(Data::Str(s@)),
            },
    {
        let mut i: usize = 0;
        while i < self.constants.len()
            invariant
                i <= self.constants.len(),
                forall|j: int| 0 <= j < i ==> self@.constants[j] != Data::Str(s@),
            decreases self.constants.len() - i,
        {
            assert(self@.constants[i as int] == self.constants@[i as int]@);
            match &self.constants[i] {
                Value::Str(e) => {
                    if *e == *s {
                        return Some(i);
                    }
                },
                _ => {},
            }
            i += 1;
        }
        None
    }

    /// Whether `value` can be added without the pool growing beyond its limit.
    pub fn has_room(&self, value: &Value) -> (b: bool)
        ensures
            b == self@.has_room(value@),
    {
        if self.constants.len() < MAX_CONSTANTS {
            return true;
        }
        match value {
            Value::Str(s) => self.find_string(s).is_some(),
            _ => false,
        }
    }

    /// Adds a constant and returns its index.  A string that the pool holds
    /// already is not added again.
    pub fn add_constant(&mut self, value: Value) -> (index: u8)
        requires
            old(self)@.wf(),
            old(self)@.has_room(value@),
        ensures
            final(self)@ == old(self)@.add_constant(value@),
            index == old(self)@.constant_index(value@),
            final(self)@.constants[index as int] == value@,
            final(self)@.wf(),
    {
        if let Value::Str(s) = &value {
            if let Some(i) = self.find_string(s) {
                proof {
                    let pool = self@.constants;
                    let k = pool.index_of(value@);
                    assert(pool.contains(value@));
                    if k < i {
                        assert(pool[k] != pool[i as int]);
                    } else if (i as int) < k {
                        assert(pool[i as int] != pool[k]);
                    }
                }
                return i as u8;
            }
        }
        let index: usize = self.constants.len();
        let ghost pool = self@.constants;
        self.constants.push(value);
        proof {
            assert(self@.constants =~= pool.push(value@));
            assert forall|i: int, j: int|
                0 <= i < j < self@.constants.len() && self@.constants[i] is Str implies #[trigger] self@.constants[i]
                != #[trigger] self@.constants[j] by {
                if j == pool.len() {
                    if value@ is Str {
                        assert(!pool.contains(value@));
                        assert(pool[i] != value@);
                    }
                } else {
                    assert(pool[i] != pool[j]);
                }
            }
        }
        index as u8
    }

    pub fn current_offset(&self) -> (n: usize)
        ensures
            n == self@.code.len(),
    {
        self.code.len()
    }

    /// A copy of the chunk.
    pub fn copy(&self) -> (c: Chunk)
        ensures
            c@ == self@,
    {
        let mut code: Vec<u8> = Vec::new();
        let mut lines: Vec<usize> = Vec::new();
        let mut constants: Vec<Value> = Vec::new();
        let mut i: usize = 0;
        while i < self.code.len()
            invariant
                i <= self.code.len(),
                code@ == self.code@.take(i as int),
            decreases self.code.len() - i,
        {
            code.push(self.code[i]);
            assert(self.code@.take(i + 1) =~= self.code@.take(i as int).push(self.code@[i as int]));
            i += 1;
        }
        assert(self.code@.take(self.code.len() as int) =~= self.code@);
        let mut i: usize = 0;
        while i < self.lines.len()
            invariant
                i <= self.lines.len(),
                lines@ == self.lines@.take(i as int),
            decreases self.lines.len() - i,
        {
            lines.push(self.lines[i]);
            assert(self.lines@.take(i + 1) =~= self.lines@.take(i as int).push(
                self.lines@[i as int],
            ));
            i += 1;
        }
        assert(self.lines@.take(self.lines.len() as int) =~= self.lines@);
        let mut i: usize = 0;
        while i < self.constants.len()
            invariant
                i <= self.constants.len(),
                constants@.len() == i,
                forall|j: int| 0 <= j < i ==> (#[trigger] constants@[j])@ == self.constants@[j]@,
            decreases self.constants.len() - i,
        {
            constants.push(self.constants[i].copy());
            i += 1;
        }
        assert(views(constants@) =~= views(self.constants@));
        Chunk { code, constants, lines, name: self.name.clone(), param_count: self.param_count }
    }
}

} // verus!

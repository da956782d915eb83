//! The virtual machine as a mathematical object: its state, and what one
//! instruction does to it.

use vstd::prelude::*;
use crate::builtins::{Applied, RequestModel, apply_model, builtin_named};
use crate::chunk::{ChunkModel, target_of};
use crate::dict::{lookup, put};
use crate::error::{ErrorModel, KindModel, error_at_line, error_nowhere};
use crate::lowering::{TableModel, find_function};
use crate::opcode::OpCode;
use crate::ops::{
    Comparison, Outcome, add_model, compare_model, dict_key_model, div_model, equal_model,
    index_model, mul_model, neg_model, rem_model, set_index_model, sub_model,
};
use crate::value::{Data, format_text, truthy};

verus! {

/// One activation of a chunk: the chunk, the position of its next
/// instruction, and the variables of its own.
pub struct FrameModel {
    pub chunk: ChunkModel,
    pub ip: int,
    pub locals: Seq<(Seq<char>, Data)>,
}

/// The state of the machine.
pub struct VmModel {
    pub stack: Seq<Data>,
    pub frames: Seq<FrameModel>,
    pub globals: Seq<(Seq<char>, Data)>,
    pub functions: TableModel,
    /// The request to the outside world that waits for its answer.
    pub pending: Option<RequestModel>,
}

/// What the machine tells its driver after a step.
pub enum Signal {
    /// Nothing: the next instruction can follow.
    Continue,
    /// The program has ended.
    Halted,
    /// A line is to be printed.
    Print(Seq<char>),
    /// The outside world is asked for something; its answer is to be delivered.
    Ask(RequestModel),
}

pub type Stepped = Result<(VmModel, Signal), ErrorModel>;

/// An instruction as it was read from the code.
pub struct Decoded {
    pub op: OpCode,
    /// The byte of the instruction.
    pub byte: u8,
    /// The first operand byte, or 0.
    pub a: u8,
    /// The second operand byte, or 0.
    pub b: u8,
    /// The source line of the instruction.
    pub line: usize,
    /// The position of the instruction that follows.
    pub next: int,
}

pub open spec fn underflow() -> ErrorModel {
    error_nowhere(KindModel::StackUnderflow)
}

/// The source line of the byte at `at`, or 0 where the line table has none.
pub open spec fn line_at(chunk: ChunkModel, at: int) -> usize {
    if 0 <= at < chunk.lines.len() {
        chunk.lines[at]
    } else {
        0
    }
}

/// An instruction that cannot be carried out as it stands in the code.
pub open spec fn malformed(byte: u8, line: usize) -> ErrorModel {
    error_at_line(KindModel::InvalidOpcode(byte), line)
}

/// The instruction at the frame's position.  A position outside the code
/// is reported as the byte 0 not being an instruction, and so are operands
/// that the code does not hold.
pub open spec fn decode_next(f: FrameModel) -> Result<Decoded, ErrorModel> {
    let code = f.chunk.code;
    if !(0 <= f.ip < code.len()) {
        Err(malformed(0, line_at(f.chunk, f.ip - 1)))
    } else {
        let byte = code[f.ip];
        match OpCode::decode(byte) {
            None => Err(malformed(byte, line_at(f.chunk, f.ip))),
            Some(op) => {
                let next = f.ip + 1 + op.operand_len();
                if next > code.len() {
                    Err(malformed(byte, line_at(f.chunk, code.len() - 1)))
                } else {
                    Ok(
                        Decoded {
                            op,
                            byte,
                            a: if op.operand_len() >= 1 {
                                code[f.ip + 1]
                            } else {
                                0
                            },
                            b: if op.operand_len() >= 2 {
                                code[f.ip + 2]
                            } else {
                                0
                            },
                            line: line_at(f.chunk, next - 1),
                            next,
                        },
                    )
                }
            },
        }
    }
}

/// The name that the constant at `index` holds.
pub open spec fn name_at(chunk: ChunkModel, index: u8) -> Option<Seq<char>> {
    if index < chunk.constants.len() {
        match chunk.constants[index as int] {
            Data::Str(s) => Some(s),
            _ => None,
        }
    } else {
        None
    }
}

/// What an instruction with two operands from the stack leaves there.
pub open spec fn binary_model(op: OpCode, a: Data, b: Data, line: usize) -> Outcome {
    match op {
        OpCode::Add => add_model(a, b, line),
        OpCode::Sub => sub_model(a, b, line),
        OpCode::Mul => mul_model(a, b, line),
        OpCode::Div => div_model(a, b, line),
        OpCode::Mod => rem_model(a, b, line),
        OpCode::Eq => Ok(Data::Bool(equal_model(a, b))),
        OpCode::Neq => Ok(Data::Bool(!equal_model(a, b))),
        OpCode::Lt => compare_model(Comparison::Lt, a, b, line),
        OpCode::Lte => compare_model(Comparison::Lte, a, b, line),
        OpCode::Gt => compare_model(Comparison::Gt, a, b, line),
        OpCode::Gte => compare_model(Comparison::Gte, a, b, line),
        OpCode::GetIndex => index_model(a, b, line),
        _ => Ok(Data::Nil),
    }
}

pub open spec fn is_binary(op: OpCode) -> bool {
    match op {
        OpCode::Add | OpCode::Sub | OpCode::Mul | OpCode::Div | OpCode::Mod | OpCode::Eq
        | OpCode::Neq | OpCode::Lt | OpCode::Lte | OpCode::Gt | OpCode::Gte
        | OpCode::GetIndex => true,
        _ => false,
    }
}

/// The entries of a dictionary that `count` pairs on top of the stack
/// give, the topmost pair first, and the stack below them.
pub open spec fn take_pairs(stack: Seq<Data>, count: nat, line: usize) -> Result<
    (Seq<(Seq<char>, Data)>, Seq<Data>),
    ErrorModel,
>
    decreases count,
{
    if count == 0 {
        Ok((Seq::empty(), stack))
    } else if stack.len() < 2 {
        Err(underflow())
    } else {
        let value = stack[stack.len() - 1];
        let key = stack[stack.len() - 2];
        match dict_key_model(key, line) {
            Err(e) => Err(e),
            Ok(k) => match take_pairs(stack.take(stack.len() - 2), (count - 1) as nat, line) {
                Err(e) => Err(e),
                Ok(rest) => Ok((seq![(k, value)] + rest.0, rest.1)),
            },
        }
    }
}

/// The dictionary that binds the given pairs, the last of them first.
pub open spec fn bind_all(pairs: Seq<(Seq<char>, Data)>) -> Seq<(Seq<char>, Data)>
    decreases pairs.len(),
{
    if pairs.len() == 0 {
        Seq::empty()
    } else {
        put(bind_all(pairs.skip(1)), pairs[0].0, pairs[0].1)
    }
}

/// The dictionary that `MAKE_DICT` makes holds its keys in order.
pub proof fn lemma_bind_all_sorted(pairs: Seq<(Seq<char>, Data)>)
    ensures
        crate::dict::sorted_keys(bind_all(pairs)),
    decreases pairs.len(),
{
    if pairs.len() > 0 {
        lemma_bind_all_sorted(pairs.skip(1));
        crate::dict::lemma_put_sorted(bind_all(pairs.skip(1)), pairs[0].0, pairs[0].1);
    }
}

impl VmModel {
    pub open spec fn top(self) -> FrameModel {
        self.frames.last()
    }

    /// The state with the position of the running frame set.
    pub open spec fn at(self, ip: int) -> VmModel {
        VmModel {
            frames: self.frames.update(
                self.frames.len() - 1,
                FrameModel { ip, ..self.frames.last() },
            ),
            ..self
        }
    }

    pub open spec fn with_stack(self, stack: Seq<Data>) -> VmModel {
        VmModel { stack, ..self }
    }

    pub open spec fn push(self, v: Data) -> VmModel {
        VmModel { stack: self.stack.push(v), ..self }
    }

    /// The state with the topmost `n` values taken off the stack.
    pub open spec fn drop(self, n: int) -> VmModel {
        VmModel { stack: self.stack.take(self.stack.len() - n), ..self }
    }

    /// The value of a variable: the running frame's own, or else the global one.
    pub open spec fn variable(self, name: Seq<char>) -> Option<Data> {
        match lookup(self.top().locals, name) {
            Some(v) => Some(v),
            None => lookup(self.globals, name),
        }
    }

    /// The state with a variable bound: in the running frame when a
    /// function runs, and globally otherwise.
    pub open spec fn bind(self, name: Seq<char>, v: Data) -> VmModel {
        if self.frames.len() > 1 {
            VmModel {
                frames: self.frames.update(
                    self.frames.len() - 1,
                    FrameModel {
                        locals: put(self.frames.last().locals, name, v),
                        ..self.frames.last()
                    },
                ),
                ..self
            }
        } else {
            VmModel { globals: put(self.globals, name, v), ..self }
        }
    }
}

/// `CALL`: a built-in function is applied at once, or asks the outside
/// world; a function of the program gets a frame of its own, and finds its
/// arguments on the stack.
pub open spec fn call_model(m: VmModel, i: Decoded) -> Stepped {
    match name_at(m.top().chunk, i.a) {
        None => Err(malformed(i.byte, i.line)),
        Some(name) => {
            let argc = i.b as int;
            if m.stack.len() < argc {
                Err(underflow())
            } else {
                let args = m.stack.subrange(m.stack.len() - argc, m.stack.len() as int);
                match builtin_named(name) {
                    Some(b) => match apply_model(b, args, i.line) {
                        Applied::Done(Ok(v)) => Ok((m.drop(argc).push(v), Signal::Continue)),
                        Applied::Done(Err(e)) => Err(e),
                        Applied::Ask(req) => Ok(
                            (VmModel { pending: Some(req), ..m.drop(argc) }, Signal::Ask(req)),
                        ),
                    },
                    None => match find_function(m.functions, name) {
                        None => Err(error_at_line(KindModel::UndefinedFunction(name), i.line)),
                        Some(chunk) => if chunk.param_count != argc {
                            Err(
                                error_at_line(
                                    KindModel::ArgumentCount {
                                        name,
                                        expected: chunk.param_count,
                                        got: argc as usize,
                                    },
                                    i.line,
                                ),
                            )
                        } else {
                            Ok(
                                (
                                    VmModel {
                                        frames: m.frames.push(
                                            FrameModel { chunk, ip: 0, locals: Seq::empty() },
                                        ),
                                        ..m
                                    },
                                    Signal::Continue,
                                ),
                            )
                        },
                    },
                }
            }
        },
    }
}

/// What a decoded instruction does to the state, whose running frame
/// stands behind the instruction already.
pub open spec fn execute(m: VmModel, i: Decoded) -> Stepped {
    let n = m.stack.len() as int;
    match i.op {
        OpCode::PushConst => if i.a < m.top().chunk.constants.len() {
            Ok((m.push(m.top().chunk.constants[i.a as int]), Signal::Continue))
        } else {
            Err(malformed(i.byte, i.line))
        },
        OpCode::PushTrue => Ok((m.push(Data::Bool(true)), Signal::Continue)),
        OpCode::PushFalse => Ok((m.push(Data::Bool(false)), Signal::Continue)),
        OpCode::PushNone => Ok((m.push(Data::Nil), Signal::Continue)),
        OpCode::Load => match name_at(m.top().chunk, i.a) {
            None => Err(malformed(i.byte, i.line)),
            Some(name) => match m.variable(name) {
                Some(v) => Ok((m.push(v), Signal::Continue)),
                None => Err(error_at_line(KindModel::UndefinedVariable(name), i.line)),
            },
        },
        OpCode::Store => match name_at(m.top().chunk, i.a) {
            None => Err(malformed(i.byte, i.line)),
            Some(name) => if n < 1 {
                Err(underflow())
            } else {
                Ok((m.drop(1).bind(name, m.stack[n - 1]), Signal::Continue))
            },
        },
        OpCode::Add | OpCode::Sub | OpCode::Mul | OpCode::Div | OpCode::Mod | OpCode::Eq
        | OpCode::Neq | OpCode::Lt | OpCode::Lte | OpCode::Gt | OpCode::Gte
        | OpCode::GetIndex => if n < 2 {
            Err(underflow())
        } else {
            match binary_model(i.op, m.stack[n - 2], m.stack[n - 1], i.line) {
                Ok(v) => Ok((m.drop(2).push(v), Signal::Continue)),
                Err(e) => Err(e),
            }
        },
        OpCode::Neg => if n < 1 {
            Err(underflow())
        } else {
            match neg_model(m.stack[n - 1], i.line) {
                Ok(v) => Ok((m.drop(1).push(v), Signal::Continue)),
                Err(e) => Err(e),
            }
        },
        OpCode::Not => if n < 1 {
            Err(underflow())
        } else {
            Ok((m.drop(1).push(Data::Bool(!truthy(m.stack[n - 1]))), Signal::Continue))
        },
        OpCode::Jump => Ok((m.at(target_of(i.a, i.b)), Signal::Continue)),
        OpCode::JumpIfFalse => if n < 1 {
            Err(underflow())
        } else if !truthy(m.stack[n - 1]) {
            Ok((m.drop(1).at(target_of(i.a, i.b)), Signal::Continue))
        } else {
            Ok((m.drop(1), Signal::Continue))
        },
        OpCode::JumpIfTrue => if n < 1 {
            Err(underflow())
        } else if truthy(m.stack[n - 1]) {
            Ok((m.drop(1).at(target_of(i.a, i.b)), Signal::Continue))
        } else {
            Ok((m.drop(1), Signal::Continue))
        },
        OpCode::PeekJumpIfFalse => if n < 1 {
            Err(underflow())
        } else if !truthy(m.stack[n - 1]) {
            Ok((m.at(target_of(i.a, i.b)), Signal::Continue))
        } else {
            Ok((m, Signal::Continue))
        },
        OpCode::PeekJumpIfTrue => if n < 1 {
            Err(underflow())
        } else if truthy(m.stack[n - 1]) {
            Ok((m.at(target_of(i.a, i.b)), Signal::Continue))
        } else {
            Ok((m, Signal::Continue))
        },
        OpCode::Call => call_model(m, i),
        OpCode::Return => if n < 1 {
            Err(underflow())
        } else {
            Ok((VmModel { frames: m.frames.drop_last(), ..m }, Signal::Continue))
        },
        OpCode::ReturnNone => Ok(
            (VmModel { frames: m.frames.drop_last(), ..m }.push(Data::Nil), Signal::Continue),
        ),
        OpCode::MakeArray => if n < i.a {
            Err(underflow())
        } else {
            Ok(
                (
                    m.drop(i.a as int).push(Data::Array(m.stack.subrange(n - i.a, n))),
                    Signal::Continue,
                ),
            )
        },
        OpCode::MakeDict => match take_pairs(m.stack, i.a as nat, i.line) {
            Err(e) => Err(e),
            Ok(taken) => Ok(
                (m.with_stack(taken.1).push(Data::Dict(bind_all(taken.0))), Signal::Continue),
            ),
        },
        OpCode::SetIndex => if n < 3 {
            Err(underflow())
        } else {
            match set_index_model(m.stack[n - 3], m.stack[n - 2], m.stack[n - 1], i.line) {
                Ok(v) => Ok((m.drop(3).push(v), Signal::Continue)),
                Err(e) => Err(e),
            }
        },
        OpCode::Print => if n < 1 {
            Err(underflow())
        } else {
            Ok((m.drop(1), Signal::Print(format_text(m.stack[n - 1]))))
        },
        OpCode::Pop => if n < 1 {
            Err(underflow())
        } else {
            Ok((m.drop(1), Signal::Continue))
        },
        OpCode::Halt => Ok((VmModel { frames: m.frames.drop_last(), ..m }, Signal::Halted)),
    }
}

/// The table after all functions of `more` have been defined, the first
/// of them last.
pub open spec fn define_all(table: TableModel, more: TableModel) -> TableModel
    decreases more.len(),
{
    if more.len() == 0 {
        table
    } else {
        crate::lowering::define_function(define_all(table, more.skip(1)), more[0].0, more[0].1)
    }
}

/// Defining functions keeps every name of the table single.
pub proof fn lemma_define_all_once(table: TableModel, more: TableModel)
    requires
        crate::lowering::names_once(table),
    ensures
        crate::lowering::names_once(define_all(table, more)),
    decreases more.len(),
{
    if more.len() > 0 {
        lemma_define_all_once(table, more.skip(1));
        crate::lowering::lemma_define_once(define_all(table, more.skip(1)), more[0].0, more[0].1);
    }
}

/// A machine without variables, functions or a program.
pub open spec fn fresh() -> VmModel {
    VmModel {
        stack: Seq::empty(),
        frames: Seq::empty(),
        globals: Seq::empty(),
        functions: Seq::empty(),
        pending: None,
    }
}

/// The machine after the functions of a program have been defined and
/// its main chunk has been loaded.
pub open spec fn loaded(m: VmModel, main_chunk: ChunkModel, table: TableModel) -> VmModel {
    VmModel {
        stack: Seq::empty(),
        frames: seq![FrameModel { chunk: main_chunk, ip: 0, locals: Seq::empty() }],
        functions: define_all(m.functions, table),
        pending: None,
        ..m
    }
}

/// One step of the machine.  While a request waits for its answer, the
/// request is repeated; without a frame, the program has ended; otherwise
/// the next instruction is read and carried out.
pub open spec fn step_model(m: VmModel) -> Stepped {
    if m.pending is Some {
        Ok((m, Signal::Ask(m.pending->0)))
    } else if m.frames.len() == 0 {
        Ok((m, Signal::Halted))
    } else {
        match decode_next(m.top()) {
            Err(e) => Err(e),
            Ok(i) => execute(m.at(i.next), i),
        }
    }
}

/// Steps of the machine, at most `budget` of them, up to the first that
/// tells the driver something.
pub open spec fn run_model(m: VmModel, budget: nat) -> Stepped
    decreases budget,
{
    if budget == 0 {
        Ok((m, Signal::Continue))
    } else {
        match step_model(m) {
            Ok((next, Signal::Continue)) => run_model(next, (budget - 1) as nat),
            other => other,
        }
    }
}

/// Whether `after` is what an error leaves of the state `before`: the
/// variables, the functions and the frames are as they were, but for the
/// position of the running frame, and the stack has lost at most values
/// from its top.
pub open spec fn spared(before: VmModel, after: VmModel) -> bool {
    &&& after.globals == before.globals
    &&& after.functions == before.functions
    &&& after.pending == before.pending
    &&& after.frames.len() == before.frames.len()
    &&& forall|k: int|
        0 <= k < before.frames.len() ==> (#[trigger] after.frames[k]).chunk
            == before.frames[k].chunk && after.frames[k].locals == before.frames[k].locals && (k
            < before.frames.len() - 1 ==> after.frames[k].ip == before.frames[k].ip)
    &&& after.stack.len() <= before.stack.len()
    &&& forall|k: int| 0 <= k < after.stack.len() ==> after.stack[k] == before.stack[k]
}

/// The state that steps have reached, at most `budget` of them, when the
/// first of them tells the driver something or fails: the state before
/// that step.
pub open spec fn reached(m: VmModel, budget: nat) -> VmModel
    decreases budget,
{
    if budget == 0 {
        m
    } else {
        match step_model(m) {
            Ok((next, Signal::Continue)) => reached(next, (budget - 1) as nat),
            _ => m,
        }
    }
}

/// A step changes no function.
pub proof fn lemma_step_keeps_functions(m: VmModel)
    requires
        step_model(m) is Ok,
    ensures
        step_model(m)->Ok_0.0.functions == m.functions,
{
}

/// What the outside world answers to a request.
pub enum ReplyModel {
    /// The line that was read, with its line end.
    Line(Seq<char>),
    /// The text of the file that was read.
    Contents(Seq<char>),
    /// The file was written.
    Written,
    /// The file could not be read or written, for the given reason.
    Failed(Seq<char>),
}

/// The text without the given character at its end, however often it stands there.
pub open spec fn strip_end(s: Seq<char>, c: char) -> Seq<char>
    decreases s.len(),
{
    if s.len() > 0 && s.last() == c {
        strip_end(s.drop_last(), c)
    } else {
        s
    }
}

/// Whether an answer fits the request that waits for it.
pub open spec fn fits(req: RequestModel, reply: ReplyModel) -> bool {
    match (req, reply) {
        (RequestModel::Input(_), ReplyModel::Line(_)) => true,
        (RequestModel::ReadFile(_), ReplyModel::Contents(_)) => true,
        (RequestModel::ReadFile(_), ReplyModel::Failed(_)) => true,
        (RequestModel::WriteFile(_, _), ReplyModel::Written) => true,
        (RequestModel::WriteFile(_, _), ReplyModel::Failed(_)) => true,
        _ => false,
    }
}

/// The state after the answer to the waiting request has been delivered:
/// the built-in function's result lies on the stack, or the failure is
/// the error of the call.
pub open spec fn deliver_model(m: VmModel, reply: ReplyModel) -> Result<VmModel, ErrorModel> {
    let line = if m.frames.len() > 0 {
        line_at(m.top().chunk, m.top().ip - 1)
    } else {
        0
    };
    let idle = VmModel { pending: None, ..m };
    match (m.pending->0, reply) {
        (RequestModel::Input(_), ReplyModel::Line(raw)) => Ok(
            idle.push(Data::Str(strip_end(strip_end(raw, '\n'), '\r'))),
        ),
        (RequestModel::ReadFile(_), ReplyModel::Contents(text)) => Ok(idle.push(Data::Str(text))),
        (RequestModel::ReadFile(path), ReplyModel::Failed(reason)) => Err(
            error_at_line(KindModel::FileRead { path, reason }, line),
        ),
        (RequestModel::WriteFile(_, _), ReplyModel::Written) => Ok(idle.push(Data::Nil)),
        (RequestModel::WriteFile(path, _), ReplyModel::Failed(reason)) => Err(
            error_at_line(KindModel::FileWrite { path, reason }, line),
        ),
        _ => Ok(idle),
    }
}

} // verus!

//! The virtual machine: executes bytecode, one instruction at a time.
//!
//! The machine does no input or output of its own.  A step tells the
//! driver what is to be printed, read or written; the driver does it and
//! delivers the answer.

use vstd::prelude::*;
use vstd::string::*;
use crate::balance::{
    balanced, lemma_define_all_fit, lemma_deliver_balanced, lemma_loaded_balanced,
    lemma_step_balanced,
};
use crate::builtins::{Application, Request, apply_builtin, builtin_of};
use crate::chunk::Chunk;
use crate::compiler::FunctionTable;
use crate::error::{ErrorKind, ErrorModel, WhispemError, WhispemResult};
use crate::level::{fit, table_fit};
use crate::lowering::names_once;
use crate::machine::{
    Decoded,
    FrameModel,
    ReplyModel,
    Signal,
    Stepped,
    VmModel,
    bind_all,
    decode_next,
    deliver_model,
    execute,
    fits,
    is_binary,
    line_at,
    malformed,
    name_at,
    lemma_define_all_once,
    lemma_step_keeps_functions,
    loaded,
    reached,
    run_model,
    spared,
    step_model,
    strip_end,
    take_pairs,
    underflow,
};
use crate::opcode::OpCode;
use crate::ops::{
    Comparison, add_values, compare_values, div_values, get_index, mul_values, neg_value,
    rem_values, set_index, sub_values, to_dict_key, values_equal,
};
use crate::text::{chars_of, string_of};
use crate::value::{Data, Dict, Value, lemma_array_view, lemma_dict_view, views};

verus! {

/// One activation of a chunk.
struct CallFrame {
    chunk: Chunk,
    ip: usize,
    locals: Dict,
}

/// What a step tells the driver.
#[derive(Debug)]
pub enum Effect {
    /// Nothing: the next step can follow.
    Continue,
    /// The program has ended.
    Halted,
    /// The text is to be printed, followed by a line end.
    Print(String),
    /// The outside world is asked for something; its answer is to be delivered.
    Ask(Request),
}

impl View for Effect {
    type V = Signal;

    open spec fn view(&self) -> Signal {
        match self {
            Effect::Continue => Signal::Continue,
            Effect::Halted => Signal::Halted,
            Effect::Print(s) => Signal::Print(s@),
            Effect::Ask(r) => Signal::Ask(r@),
        }
    }
}

/// What the outside world answers to a request.
#[derive(Debug)]
pub enum Reply {
    /// The line that was read, with its line end; empty at the end of the input.
    Line(String),
    /// The text of the file that was read.
    Contents(String),
    /// The file was written.
    Written,
    /// The file could not be read or written, for the given reason.
    Failed(String),
}

impl View for Reply {
    type V = ReplyModel;

    open spec fn view(&self) -> ReplyModel {
        match self {
            Reply::Line(s) => ReplyModel::Line(s@),
            Reply::Contents(s) => ReplyModel::Contents(s@),
            Reply::Written => ReplyModel::Written,
            Reply::Failed(s) => ReplyModel::Failed(s@),
        }
    }
}

/// Whether a step's result and the state it leaves are what the model
/// gives: on success the state of the model, and on an error the state
/// `before` as far as an error spares it.
pub open spec fn stepped(r: WhispemResult<Effect>, model: Stepped, before: VmModel, after: VmModel)
    -> bool {
    match r {
        Ok(effect) => model == Ok::<(VmModel, Signal), ErrorModel>((after, effect@)),
        Err(e) => model == Err::<(VmModel, Signal), ErrorModel>(e@) && spared(before, after),
    }
}

/// An instruction as the machine read it.
struct Instr {
    op: OpCode,
    byte: u8,
    a: u8,
    b: u8,
    line: usize,
    next: usize,
}

impl View for Instr {
    type V = Decoded;

    closed spec fn view(&self) -> Decoded {
        Decoded {
            op: self.op,
            byte: self.byte,
            a: self.a,
            b: self.b,
            line: self.line,
            next: self.next as int,
        }
    }
}

closed spec fn frame_views(frames: Seq<CallFrame>) -> Seq<FrameModel> {
    Seq::new(
        frames.len(),
        |i: int|
            FrameModel { chunk: frames[i].chunk@, ip: frames[i].ip as int, locals: frames[i].locals@ },
    )
}

pub struct Vm {
    stack: Vec<Value>,
    frames: Vec<CallFrame>,
    globals: Dict,
    pub functions: FunctionTable,
    pending: Option<Request>,
}

impl View for Vm {
    type V = VmModel;

    closed spec fn view(&self) -> VmModel {
        VmModel {
            stack: views(self.stack@),
            frames: frame_views(self.frames@),
            globals: self.globals@,
            functions: self.functions@,
            pending: match self.pending {
                Some(r) => Some(r@),
                None => None,
            },
        }
    }
}

fn underflow_error() -> (e: WhispemError)
    ensures
        e@ == underflow(),
{
    WhispemError::runtime(ErrorKind::StackUnderflow)
}

fn malformed_error(byte: u8, line: usize) -> (e: WhispemError)
    ensures
        e@ == malformed(byte, line),
{
    WhispemError::at_line(ErrorKind::InvalidOpcode(byte), line)
}

fn copy_request(r: &Request) -> (c: Request)
    ensures
        c@ == r@,
{
    match r {
        Request::Input(p) => Request::Input(p.clone()),
        Request::ReadFile(p) => Request::ReadFile(p.clone()),
        Request::WriteFile(p, c) => Request::WriteFile(p.clone(), c.clone()),
    }
}

/// The source line of the byte at `at`, or 0 where the line table has none.
fn line_of(chunk: &Chunk, at: usize) -> (line: usize)
    ensures
        line == line_at(chunk@, at as int),
{
    if at < chunk.lines.len() {
        chunk.lines[at]
    } else {
        0
    }
}

impl Vm {
    /// A machine without variables, functions or a program.
    pub fn new() -> (vm: Vm)
        ensures
            vm@ == crate::machine::fresh(),
    {
        let vm = Vm {
            stack: Vec::new(),
            frames: Vec::new(),
            globals: Dict::new(),
            functions: FunctionTable::new(),
            pending: None,
        };
        proof {
            assert(vm@.stack =~= Seq::<Data>::empty());
            assert(vm@.frames =~= Seq::<FrameModel>::empty());
        }
        vm
    }

    /// How many values lie on the stack.
    pub fn stack_depth(&self) -> (n: usize)
        ensures
            n == self@.stack.len(),
    {
        self.stack.len()
    }

    /// How many frames are active.
    pub fn frame_count(&self) -> (n: usize)
        ensures
            n == self@.frames.len(),
    {
        self.frames.len()
    }

    /// The value of a global variable, if it is bound.
    pub fn global(&self, name: &str) -> (r: Option<Value>)
        ensures
            match r {
                Some(v) => crate::dict::lookup(self@.globals, name@) == Some(v@),
                None => crate::dict::lookup(self@.globals, name@) is None,
            },
    {
        match self.globals.get(name) {
            Some(v) => Some(v.copy()),
            None => None,
        }
    }

    /// Whether a request waits for its answer.
    pub fn is_waiting(&self) -> (b: bool)
        ensures
            b == self@.pending is Some,
    {
        self.pending.is_some()
    }

    /// Whether a request waits for its answer and the reply is an answer
    /// to it: a line to `input`, contents or a failure to `read_file`,
    /// the word that it is done or a failure to `write_file`.
    pub fn accepts(&self, reply: &Reply) -> (b: bool)
        ensures
            b == (self@.pending is Some && fits(self@.pending->0, reply@)),
    {
        match &self.pending {
            None => false,
            Some(request) => match (request, reply) {
                (Request::Input(_), Reply::Line(_)) => true,
                (Request::ReadFile(_), Reply::Contents(_)) => true,
                (Request::ReadFile(_), Reply::Failed(_)) => true,
                (Request::WriteFile(_, _), Reply::Written) => true,
                (Request::WriteFile(_, _), Reply::Failed(_)) => true,
                _ => false,
            },
        }
    }

    /// Defines the functions of a program: each replaces one of the same
    /// name, so that no name comes to stand twice among the functions.
    /// Functions that can run leave the machine with functions that can
    /// run.
    pub fn define(&mut self, table: FunctionTable)
        ensures
            final(self)@ == (VmModel {
                functions: crate::machine::define_all(old(self)@.functions, table@),
                ..old(self)@
            }),
            table_fit(old(self)@.functions) && table_fit(table@) ==> table_fit(
                final(self)@.functions,
            ),
            names_once(old(self)@.functions) ==> names_once(final(self)@.functions),
    {
        let mut rest = table;
        let ghost all = table@;
        proof {
            assert(all.skip(all.len() as int) =~= Seq::<(Seq<char>, crate::chunk::ChunkModel)>::empty());
        }
        while rest.entries.len() > 0
            invariant
                self@ == (VmModel {
                    functions: crate::machine::define_all(
                        old(self)@.functions,
                        all.skip(rest@.len() as int),
                    ),
                    ..old(self)@
                }),
                rest@ =~= all.take(rest@.len() as int),
                rest@.len() <= all.len(),
            decreases rest.entries@.len(),
        {
            let ghost k = rest@.len() as int;
            let ghost before = rest@;
            let ghost last = rest.entries@[k - 1];
            assert(before[k - 1] == (last.0@, last.1@));
            assert(before[k - 1] == all.take(k)[k - 1]);
            let entry = rest.entries.pop().unwrap();
            proof {
                assert(entry == last);
                assert(rest@ =~= all.take(k - 1));
                assert(all.skip(k - 1)[0] == all[k - 1]);
                assert(all.skip(k - 1).skip(1) =~= all.skip(k));
                assert((entry.0@, entry.1@) == all[k - 1]);
            }
            self.functions.insert(entry.0, entry.1);
        }
        proof {
            assert(all.skip(0) =~= all);
            if table_fit(old(self)@.functions) && table_fit(table@) {
                lemma_define_all_fit(old(self)@.functions, table@);
            }
            if names_once(old(self)@.functions) {
                lemma_define_all_once(old(self)@.functions, table@);
            }
        }
    }

    /// Makes the chunk the program to run: what was left of an earlier
    /// run is dropped, variables and functions stay.  With a chunk and
    /// functions that can run, the machine is in balance.
    pub fn load(&mut self, main_chunk: Chunk)
        ensures
            final(self)@ == (VmModel {
                stack: Seq::empty(),
                frames: seq![FrameModel { chunk: main_chunk@, ip: 0, locals: Seq::empty() }],
                pending: None,
                ..old(self)@
            }),
            table_fit(old(self)@.functions) && fit(main_chunk@, true) ==> balanced(final(self)@),
    {
        self.stack = Vec::new();
        self.frames = Vec::new();
        self.pending = None;
        self.frames.push(CallFrame { chunk: main_chunk, ip: 0, locals: Dict::new() });
        proof {
            assert(self@.stack =~= Seq::<Data>::empty());
            assert(self@.frames =~= seq![
                FrameModel { chunk: main_chunk@, ip: 0, locals: Seq::empty() },
            ]);
            if table_fit(old(self)@.functions) && fit(main_chunk@, true) {
                lemma_loaded_balanced(old(self)@, main_chunk@, Seq::empty());
                assert(self@ == crate::machine::loaded(old(self)@, main_chunk@, Seq::empty()));
            }
        }
    }

    fn push_value(&mut self, v: Value)
        ensures
            final(self)@ == old(self)@.push(v@),
    {
        self.stack.push(v);
        assert(self@.stack =~= old(self)@.stack.push(v@));
    }

    fn pop_value(&mut self) -> (v: Value)
        requires
            old(self)@.stack.len() >= 1,
        ensures
            v@ == old(self)@.stack.last(),
            final(self)@ == old(self)@.drop(1),
    {
        let v = self.stack.pop().unwrap();
        assert(self@.stack =~= old(self)@.stack.take(old(self)@.stack.len() - 1));
        v
    }

    fn depth(&self) -> (n: usize)
        ensures
            n == self@.stack.len(),
    {
        self.stack.len()
    }

    /// Sets the position of the running frame.
    fn jump(&mut self, target: usize)
        requires
            old(self)@.frames.len() > 0,
        ensures
            final(self)@ == old(self)@.at(target as int),
    {
        let mut frame = self.frames.pop().unwrap();
        frame.ip = target;
        self.frames.push(frame);
        assert(self@.frames =~= old(self)@.at(target as int).frames);
    }

    fn pop_frame(&mut self)
        requires
            old(self)@.frames.len() > 0,
        ensures
            final(self)@ == (VmModel { frames: old(self)@.frames.drop_last(), ..old(self)@ }),
    {
        let _ = self.frames.pop();
        assert(self@.frames =~= old(self)@.frames.drop_last());
    }

    /// Reads the next instruction and moves the running frame behind it.
    fn fetch(&mut self) -> (r: WhispemResult<Instr>)
        requires
            old(self)@.frames.len() > 0,
        ensures
            match r {
                Ok(i) => decode_next(old(self)@.top()) == Ok::<Decoded, ErrorModel>(i@)
                    && final(self)@ == old(self)@.at(i@.next),
                Err(e) => decode_next(old(self)@.top()) == Err::<Decoded, ErrorModel>(e@)
                    && final(self)@ == old(self)@,
            },
    {
        let n = self.frames.len();
        let frame = &self.frames[n - 1];
        assert(self@.top() == (FrameModel {
            chunk: frame.chunk@,
            ip: frame.ip as int,
            locals: frame.locals@,
        }));
        let ip = frame.ip;
        let len = frame.chunk.code.len();
        if ip >= len {
            let line = if ip > 0 { line_of(&frame.chunk, ip - 1) } else { 0 };
            return Err(malformed_error(0, line));
        }
        let byte = frame.chunk.code[ip];
        let op = match OpCode::from_byte(byte) {
            Some(op) => op,
            None => {
                return Err(malformed_error(byte, line_of(&frame.chunk, ip)));
            },
        };
        let size = op.operand_size();
        if size > len - ip - 1 {
            return Err(malformed_error(byte, line_of(&frame.chunk, len - 1)));
        }
        let next = ip + 1 + size;
        let a: u8 = if size >= 1 { frame.chunk.code[ip + 1] } else { 0 };
        let b: u8 = if size >= 2 { frame.chunk.code[ip + 2] } else { 0 };
        let line = line_of(&frame.chunk, next - 1);
        self.jump(next);
        Ok(Instr { op, byte, a, b, line, next })
    }

    /// The name that the constant at `index` of the running chunk holds.
    fn name_constant(&self, index: u8) -> (r: Option<String>)
        requires
            self@.frames.len() > 0,
        ensures
            match r {
                Some(s) => name_at(self@.top().chunk, index) == Some(s@),
                None => name_at(self@.top().chunk, index) is None,
            },
    {
        let n = self.frames.len();
        let frame = &self.frames[n - 1];
        assert(self@.top().chunk == frame.chunk@);
        if (index as usize) < frame.chunk.constants.len() {
            assert(frame.chunk@.constants[index as int] == frame.chunk.constants@[index as int]@);
            match &frame.chunk.constants[index as usize] {
                Value::Str(s) => Some(s.clone()),
                _ => None,
            }
        } else {
            None
        }
    }

    /// The value of a variable: the running frame's own, or else the global one.
    fn lookup(&self, name: &str) -> (r: Option<Value>)
        requires
            self@.frames.len() > 0,
        ensures
            match r {
                Some(v) => self@.variable(name@) == Some(v@),
                None => self@.variable(name@) is None,
            },
    {
        let n = self.frames.len();
        let frame = &self.frames[n - 1];
        assert(self@.top().locals == frame.locals@);
        match frame.locals.get(name) {
            Some(v) => Some(v.copy()),
            None => match self.globals.get(name) {
                Some(v) => Some(v.copy()),
                None => None,
            },
        }
    }

    /// Binds a variable: in the running frame when a function runs, and
    /// globally otherwise.
    fn store(&mut self, name: String, v: Value)
        requires
            old(self)@.frames.len() > 0,
        ensures
            final(self)@ == old(self)@.bind(name@, v@),
    {
        if self.frames.len() > 1 {
            let mut frame = self.frames.pop().unwrap();
            frame.locals.insert(name, v);
            self.frames.push(frame);
            assert(self@.frames =~= old(self)@.bind(name@, v@).frames);
        } else {
            self.globals.insert(name, v);
        }
    }
    fn exec_push(&mut self, i: &Instr) -> (r: WhispemResult<Effect>)
        requires
            old(self)@.frames.len() > 0,
            i.op is PushConst || i.op is PushTrue || i.op is PushFalse || i.op is PushNone,
        ensures
            stepped(r, execute(old(self)@, i@), old(self)@, final(self)@),
    {
        match i.op {
            OpCode::PushConst => {
                let n = self.frames.len();
                let frame = &self.frames[n - 1];
                assert(self@.top().chunk == frame.chunk@);
                if (i.a as usize) < frame.chunk.constants.len() {
                    assert(frame.chunk@.constants[i.a as int] == frame.chunk.constants@[i.a as int]@);
                    let v = frame.chunk.constants[i.a as usize].copy();
                    self.push_value(v);
                    Ok(Effect::Continue)
                } else {
                    Err(malformed_error(i.byte, i.line))
                }
            },
            OpCode::PushTrue => {
                self.push_value(Value::Bool(true));
                Ok(Effect::Continue)
            },
            OpCode::PushFalse => {
                self.push_value(Value::Bool(false));
                Ok(Effect::Continue)
            },
            _ => {
                self.push_value(Value::Nil);
                Ok(Effect::Continue)
            },
        }
    }

    fn exec_load(&mut self, i: &Instr) -> (r: WhispemResult<Effect>)
        requires
            old(self)@.frames.len() > 0,
            i.op is Load,
        ensures
            stepped(r, execute(old(self)@, i@), old(self)@, final(self)@),
    {
        let name = match self.name_constant(i.a) {
            Some(n) => n,
            None => {
                return Err(malformed_error(i.byte, i.line));
            },
        };
        match self.lookup(name.as_str()) {
            Some(v) => {
                self.push_value(v);
                Ok(Effect::Continue)
            },
            None => Err(WhispemError::at_line(ErrorKind::UndefinedVariable(name), i.line)),
        }
    }

    fn exec_store(&mut self, i: &Instr) -> (r: WhispemResult<Effect>)
        requires
            old(self)@.frames.len() > 0,
            i.op is Store,
        ensures
            stepped(r, execute(old(self)@, i@), old(self)@, final(self)@),
    {
        let name = match self.name_constant(i.a) {
            Some(n) => n,
            None => {
                return Err(malformed_error(i.byte, i.line));
            },
        };
        if self.depth() < 1 {
            return Err(underflow_error());
        }
        let v = self.pop_value();
        self.store(name, v);
        Ok(Effect::Continue)
    }

    fn exec_binary(&mut self, i: &Instr) -> (r: WhispemResult<Effect>)
        requires
            old(self)@.frames.len() > 0,
            is_binary(i.op),
        ensures
            stepped(r, execute(old(self)@, i@), old(self)@, final(self)@),
    {
        if self.depth() < 2 {
            return Err(underflow_error());
        }
        let b = self.pop_value();
        let a = self.pop_value();
        proof {
            let st = old(self)@.stack;
            assert(st.take(st.len() - 1).take(st.len() - 2) =~= st.take(st.len() - 2));
            assert(st.take(st.len() - 1).last() == st[st.len() - 2]);
        }
        let line = i.line;
        let res = match i.op {
            OpCode::Add => add_values(a, b, line),
            OpCode::Sub => sub_values(a, b, line),
            OpCode::Mul => mul_values(a, b, line),
            OpCode::Div => div_values(a, b, line),
            OpCode::Mod => rem_values(a, b, line),
            OpCode::Eq => Ok(Value::Bool(values_equal(&a, &b))),
            OpCode::Neq => Ok(Value::Bool(!values_equal(&a, &b))),
            OpCode::Lt => compare_values(Comparison::Lt, a, b, line),
            OpCode::Lte => compare_values(Comparison::Lte, a, b, line),
            OpCode::Gt => compare_values(Comparison::Gt, a, b, line),
            OpCode::Gte => compare_values(Comparison::Gte, a, b, line),
            _ => get_index(a, b, line),
        };
        match res {
            Ok(v) => {
                self.push_value(v);
                Ok(Effect::Continue)
            },
            Err(e) => Err(e),
        }
    }

    fn exec_unary(&mut self, i: &Instr) -> (r: WhispemResult<Effect>)
        requires
            old(self)@.frames.len() > 0,
            i.op is Neg || i.op is Not,
        ensures
            stepped(r, execute(old(self)@, i@), old(self)@, final(self)@),
    {
        if self.depth() < 1 {
            return Err(underflow_error());
        }
        let a = self.pop_value();
        match i.op {
            OpCode::Neg => match neg_value(a, i.line) {
                Ok(v) => {
                    self.push_value(v);
                    Ok(Effect::Continue)
                },
                Err(e) => Err(e),
            },
            _ => {
                self.push_value(Value::Bool(!a.is_truthy()));
                Ok(Effect::Continue)
            },
        }
    }

    fn exec_jump(&mut self, i: &Instr) -> (r: WhispemResult<Effect>)
        requires
            old(self)@.frames.len() > 0,
            i.op.is_jump(),
        ensures
            stepped(r, execute(old(self)@, i@), old(self)@, final(self)@),
    {
        let target: usize = (i.a as usize) * 256 + (i.b as usize);
        match i.op {
            OpCode::Jump => {
                self.jump(target);
                Ok(Effect::Continue)
            },
            OpCode::JumpIfFalse => {
                if self.depth() < 1 {
                    return Err(underflow_error());
                }
                let c = self.pop_value();
                if !c.is_truthy() {
                    self.jump(target);
                }
                Ok(Effect::Continue)
            },
            OpCode::JumpIfTrue => {
                if self.depth() < 1 {
                    return Err(underflow_error());
                }
                let c = self.pop_value();
                if c.is_truthy() {
                    self.jump(target);
                }
                Ok(Effect::Continue)
            },
            OpCode::PeekJumpIfFalse => {
                let n = self.stack.len();
                if n < 1 {
                    return Err(underflow_error());
                }
                assert(self@.stack[n - 1] == self.stack@[n - 1]@);
                if !self.stack[n - 1].is_truthy() {
                    self.jump(target);
                }
                Ok(Effect::Continue)
            },
            _ => {
                let n = self.stack.len();
                if n < 1 {
                    return Err(underflow_error());
                }
                assert(self@.stack[n - 1] == self.stack@[n - 1]@);
                if self.stack[n - 1].is_truthy() {
                    self.jump(target);
                }
                Ok(Effect::Continue)
            },
        }
    }

    /// Takes the topmost `count` values off the stack, in the order in
    /// which they were pushed.
    fn take_top(&mut self, count: usize) -> (args: Vec<Value>)
        requires
            old(self)@.stack.len() >= count,
        ensures
            views(args@) == old(self)@.stack.subrange(
                old(self)@.stack.len() - count,
                old(self)@.stack.len() as int,
            ),
            final(self)@ == old(self)@.drop(count as int),
    {
        let at = self.stack.len() - count;
        let args = self.stack.split_off(at);
        proof {
            let st = old(self)@.stack;
            assert(views(args@) =~= st.subrange(st.len() - count, st.len() as int));
            assert(self@.stack =~= st.take(st.len() - count));
        }
        args
    }

    fn exec_call(&mut self, i: &Instr) -> (r: WhispemResult<Effect>)
        requires
            old(self)@.frames.len() > 0,
            old(self)@.pending is None,
            i.op is Call,
        ensures
            stepped(r, execute(old(self)@, i@), old(self)@, final(self)@),
    {
        let name = match self.name_constant(i.a) {
            Some(n) => n,
            None => {
                return Err(malformed_error(i.byte, i.line));
            },
        };
        let argc = i.b as usize;
        if self.depth() < argc {
            return Err(underflow_error());
        }
        match builtin_of(name.as_str()) {
            Some(b) => {
                let args = self.take_top(argc);
                match apply_builtin(b, args, i.line) {
                    Application::Done(Ok(v)) => {
                        self.push_value(v);
                        Ok(Effect::Continue)
                    },
                    Application::Done(Err(e)) => Err(e),
                    Application::Ask(req) => {
                        let c = copy_request(&req);
                        self.pending = Some(req);
                        Ok(Effect::Ask(c))
                    },
                }
            },
            None => match self.functions.get(name.as_str()) {
                None => Err(WhispemError::at_line(ErrorKind::UndefinedFunction(name), i.line)),
                Some(chunk) => {
                    if chunk.param_count != argc {
                        return Err(
                            WhispemError::at_line(
                                ErrorKind::ArgumentCount {
                                    name,
                                    expected: chunk.param_count,
                                    got: argc,
                                },
                                i.line,
                            ),
                        );
                    }
                    let frame = CallFrame { chunk: chunk.copy(), ip: 0, locals: Dict::new() };
                    self.frames.push(frame);
                    proof {
                        assert(self@.frames =~= old(self)@.frames.push(
                            FrameModel { chunk: chunk@, ip: 0, locals: Seq::empty() },
                        ));
                    }
                    Ok(Effect::Continue)
                },
            },
        }
    }

    fn exec_return(&mut self, i: &Instr) -> (r: WhispemResult<Effect>)
        requires
            old(self)@.frames.len() > 0,
            i.op is Return || i.op is ReturnNone || i.op is Halt,
        ensures
            stepped(r, execute(old(self)@, i@), old(self)@, final(self)@),
    {
        match i.op {
            OpCode::Return => {
                if self.depth() < 1 {
                    return Err(underflow_error());
                }
                self.pop_frame();
                Ok(Effect::Continue)
            },
            OpCode::ReturnNone => {
                self.pop_frame();
                self.push_value(Value::Nil);
                Ok(Effect::Continue)
            },
            _ => {
                self.pop_frame();
                Ok(Effect::Halted)
            },
        }
    }

    fn exec_make_array(&mut self, i: &Instr) -> (r: WhispemResult<Effect>)
        requires
            old(self)@.frames.len() > 0,
            i.op is MakeArray,
        ensures
            stepped(r, execute(old(self)@, i@), old(self)@, final(self)@),
    {
        let count = i.a as usize;
        if self.depth() < count {
            return Err(underflow_error());
        }
        let items = self.take_top(count);
        proof {
            lemma_array_view(items);
        }
        self.push_value(Value::Array(items));
        Ok(Effect::Continue)
    }

    fn exec_set_index(&mut self, i: &Instr) -> (r: WhispemResult<Effect>)
        requires
            old(self)@.frames.len() > 0,
            i.op is SetIndex,
        ensures
            stepped(r, execute(old(self)@, i@), old(self)@, final(self)@),
    {
        if self.depth() < 3 {
            return Err(underflow_error());
        }
        let value = self.pop_value();
        let idx = self.pop_value();
        let obj = self.pop_value();
        proof {
            let st = old(self)@.stack;
            let n = st.len() as int;
            assert(st.take(n - 1).take(n - 2) =~= st.take(n - 2));
            assert(st.take(n - 2).take(n - 3) =~= st.take(n - 3));
            assert(st.take(n - 1).last() == st[n - 2]);
            assert(st.take(n - 2).last() == st[n - 3]);
        }
        match set_index(obj, idx, value, i.line) {
            Ok(v) => {
                self.push_value(v);
                Ok(Effect::Continue)
            },
            Err(e) => Err(e),
        }
    }

    fn exec_print_pop(&mut self, i: &Instr) -> (r: WhispemResult<Effect>)
        requires
            old(self)@.frames.len() > 0,
            i.op is Print || i.op is Pop,
        ensures
            stepped(r, execute(old(self)@, i@), old(self)@, final(self)@),
    {
        if self.depth() < 1 {
            return Err(underflow_error());
        }
        let v = self.pop_value();
        match i.op {
            OpCode::Print => Ok(Effect::Print(v.format())),
            _ => Ok(Effect::Continue),
        }
    }
    fn exec_make_dict(&mut self, i: &Instr) -> (r: WhispemResult<Effect>)
        requires
            old(self)@.frames.len() > 0,
            i.op is MakeDict,
        ensures
            stepped(r, execute(old(self)@, i@), old(self)@, final(self)@),
    {
        let count = i.a as usize;
        let line = i.line;
        let mut pairs: Vec<(String, Value)> = Vec::new();
        let mut k: usize = 0;
        proof {
            assert(crate::value::entry_views(pairs@) =~= Seq::<(Seq<char>, Data)>::empty());
            lemma_prepend_empty(take_pairs(old(self)@.stack, count as nat, line));
        }
        while k < count
            invariant
                k <= count,
                i.op is MakeDict,
                count == i.a,
                line == i.line,
                self@ == old(self)@.with_stack(self@.stack),
                spared(old(self)@, self@),
                take_pairs(old(self)@.stack, count as nat, line) == prepend(
                    crate::value::entry_views(pairs@),
                    take_pairs(self@.stack, (count - k) as nat, line),
                ),
            decreases count - k,
        {
            if self.depth() < 2 {
                return Err(underflow_error());
            }
            let ghost st = self@.stack;
            let ghost before = crate::value::entry_views(pairs@);
            let value = self.pop_value();
            let key = self.pop_value();
            proof {
                let n = st.len() as int;
                assert(st.take(n - 1).take(n - 2) =~= st.take(n - 2));
                assert(st.take(n - 1).last() == st[n - 2]);
            }
            let name = match to_dict_key(key, line) {
                Ok(s) => s,
                Err(e) => {
                    return Err(e);
                },
            };
            pairs.push((name, value));
            k += 1;
            proof {
                let after = crate::value::entry_views(pairs@);
                assert(after =~= before.push((name@, value@)));
                lemma_prepend_step(
                    before,
                    (name@, value@),
                    take_pairs(self@.stack, (count - k) as nat, line),
                );
            }
        }
        let ghost taken = crate::value::entry_views(pairs@);
        proof {
            assert(taken + Seq::<(Seq<char>, Data)>::empty() =~= taken);
        }
        let mut dict = Dict::new();
        proof {
            assert(taken.skip(taken.len() as int) =~= Seq::<(Seq<char>, Data)>::empty());
        }
        while pairs.len() > 0
            invariant
                crate::value::entry_views(pairs@) =~= taken.take(pairs@.len() as int),
                pairs@.len() <= taken.len(),
                dict@ == bind_all(taken.skip(pairs@.len() as int)),
            decreases pairs@.len(),
        {
            let ghost n = pairs@.len() as int;
            let ghost last = pairs@[n - 1];
            assert(crate::value::entry_views(pairs@)[n - 1] == (last.0@, last.1@));
            assert(taken.take(n)[n - 1] == taken[n - 1]);
            let entry = pairs.pop().unwrap();
            proof {
                assert(crate::value::entry_views(pairs@) =~= taken.take(n - 1));
                assert(taken.skip(n - 1)[0] == taken[n - 1]);
                assert(taken.skip(n - 1).skip(1) =~= taken.skip(n));
            }
            dict.insert(entry.0, entry.1);
        }
        proof {
            assert(taken.skip(0) =~= taken);
            lemma_dict_view(dict);
        }
        self.push_value(Value::Dict(dict));
        Ok(Effect::Continue)
    }

    /// Carries out an instruction that has been read.
    fn execute(&mut self, i: Instr) -> (r: WhispemResult<Effect>)
        requires
            old(self)@.frames.len() > 0,
            old(self)@.pending is None,
        ensures
            stepped(r, execute(old(self)@, i@), old(self)@, final(self)@),
    {
        match i.op {
            OpCode::PushConst | OpCode::PushTrue | OpCode::PushFalse | OpCode::PushNone => {
                self.exec_push(&i)
            },
            OpCode::Load => self.exec_load(&i),
            OpCode::Store => self.exec_store(&i),
            OpCode::Add | OpCode::Sub | OpCode::Mul | OpCode::Div | OpCode::Mod | OpCode::Eq
            | OpCode::Neq | OpCode::Lt | OpCode::Lte | OpCode::Gt | OpCode::Gte
            | OpCode::GetIndex => self.exec_binary(&i),
            OpCode::Neg | OpCode::Not => self.exec_unary(&i),
            OpCode::Jump | OpCode::JumpIfFalse | OpCode::JumpIfTrue | OpCode::PeekJumpIfFalse
            | OpCode::PeekJumpIfTrue => self.exec_jump(&i),
            OpCode::Call => self.exec_call(&i),
            OpCode::Return | OpCode::ReturnNone | OpCode::Halt => self.exec_return(&i),
            OpCode::MakeArray => self.exec_make_array(&i),
            OpCode::MakeDict => self.exec_make_dict(&i),
            OpCode::SetIndex => self.exec_set_index(&i),
            OpCode::Print | OpCode::Pop => self.exec_print_pop(&i),
        }
    }

    /// Carries out one step: the next instruction of the running frame.
    ///
    /// While a request waits for its answer, the step repeats the request
    /// and changes nothing.  Without a frame the program has ended.  An
    /// error leaves the variables, the functions and the frames as they
    /// were, and takes at most values off the stack; an instruction that
    /// cannot be read changes nothing.  A machine in balance stays so, and
    /// has nothing on its stack when the program has ended.
    pub fn step(&mut self) -> (r: WhispemResult<Effect>)
        ensures
            stepped(r, step_model(old(self)@), old(self)@, final(self)@),
            r is Err && decode_next(old(self)@.top()) is Err ==> final(self)@ == old(self)@,
            balanced(old(self)@) && r is Ok ==> balanced(final(self)@),
            balanced(old(self)@) && (r matches Ok(e) && e@ is Halted) ==> final(self)@.stack.len()
                == 0 && final(self)@.frames.len() == 0,
    {
        let r = self.advance();
        proof {
            if balanced(old(self)@) && r is Ok {
                lemma_step_balanced(old(self)@);
            }
        }
        r
    }

    /// The step itself.
    fn advance(&mut self) -> (r: WhispemResult<Effect>)
        ensures
            stepped(r, step_model(old(self)@), old(self)@, final(self)@),
            r is Err && decode_next(old(self)@.top()) is Err ==> final(self)@ == old(self)@,
    {
        match &self.pending {
            Some(req) => {
                return Ok(Effect::Ask(copy_request(req)));
            },
            None => {},
        }
        if self.frames.len() == 0 {
            return Ok(Effect::Halted);
        }
        let i = self.fetch()?;
        self.execute(i)
    }

    /// Carries out steps, at most `budget` of them, up to the first that
    /// tells the driver something: the end of the program, a line to
    /// print, or a request.  `Continue` says that the budget is used up.
    /// An error leaves the state that the steps before it have reached,
    /// as far as an error spares it; no step changes the functions.  A
    /// machine in balance stays so, and has nothing on its stack when the
    /// program has ended.
    pub fn resume(&mut self, budget: u64) -> (r: WhispemResult<Effect>)
        ensures
            stepped(
                r,
                run_model(old(self)@, budget as nat),
                reached(old(self)@, budget as nat),
                final(self)@,
            ),
            final(self)@.functions == old(self)@.functions,
            balanced(old(self)@) && r is Ok ==> balanced(final(self)@),
            balanced(old(self)@) && (r matches Ok(e) && e@ is Halted) ==> final(self)@.stack.len()
                == 0 && final(self)@.frames.len() == 0,
    {
        let mut left: u64 = budget;
        while left > 0
            invariant
                run_model(old(self)@, budget as nat) == run_model(self@, left as nat),
                reached(old(self)@, budget as nat) == reached(self@, left as nat),
                self@.functions == old(self)@.functions,
                balanced(old(self)@) ==> balanced(self@),
            decreases left,
        {
            proof {
                if step_model(self@) is Ok {
                    lemma_step_keeps_functions(self@);
                }
            }
            match self.step() {
                Ok(Effect::Continue) => {
                    left -= 1;
                },
                Ok(other) => {
                    return Ok(other);
                },
                Err(e) => {
                    return Err(e);
                },
            }
        }
        Ok(Effect::Continue)
    }

    /// Loads the chunk and runs it as [`Vm::resume`] does.  A chunk that
    /// can run, in a machine whose functions can run, leaves nothing on
    /// the stack and no frame when the program has ended; the functions
    /// are as they were.
    pub fn run(&mut self, main_chunk: Chunk, budget: u64) -> (r: WhispemResult<Effect>)
        ensures
            table_fit(old(self)@.functions) && fit(main_chunk@, true) && r is Ok ==> balanced(
                final(self)@,
            ),
            table_fit(old(self)@.functions) && fit(main_chunk@, true) && (r matches Ok(e) && e@
                is Halted) ==> final(self)@.stack.len() == 0 && final(self)@.frames.len() == 0,
            stepped(
                r,
                run_model(loaded(old(self)@, main_chunk@, Seq::empty()), budget as nat),
                reached(loaded(old(self)@, main_chunk@, Seq::empty()), budget as nat),
                final(self)@,
            ),
            final(self)@.functions == old(self)@.functions,
    {
        self.load(main_chunk);
        assert(self@ == loaded(old(self)@, main_chunk@, Seq::empty()));
        self.resume(budget)
    }

    /// Delivers the answer to the request that waits: the result of the
    /// built-in function is pushed, or the failure becomes the error of
    /// the call, which leaves the machine as it was but for the request.
    /// A machine in balance stays so.
    pub fn deliver(&mut self, reply: Reply) -> (r: WhispemResult<()>)
        requires
            old(self)@.pending is Some,
            fits(old(self)@.pending->0, reply@),
        ensures
            match r {
                Ok(_) => deliver_model(old(self)@, reply@) == Ok::<VmModel, ErrorModel>(
                    final(self)@,
                ),
                Err(e) => deliver_model(old(self)@, reply@) == Err::<VmModel, ErrorModel>(e@)
                    && final(self)@ == (VmModel { pending: None, ..old(self)@ }),
            },
            balanced(old(self)@) && r is Ok ==> balanced(final(self)@),
    {
        let r = self.answer(reply);
        proof {
            if balanced(old(self)@) && r is Ok {
                lemma_deliver_balanced(old(self)@, reply@);
            }
        }
        r
    }

    /// The delivery itself.
    fn answer(&mut self, reply: Reply) -> (r: WhispemResult<()>)
        requires
            old(self)@.pending is Some,
            fits(old(self)@.pending->0, reply@),
        ensures
            match r {
                Ok(_) => deliver_model(old(self)@, reply@) == Ok::<VmModel, ErrorModel>(
                    final(self)@,
                ),
                Err(e) => deliver_model(old(self)@, reply@) == Err::<VmModel, ErrorModel>(e@)
                    && final(self)@ == (VmModel { pending: None, ..old(self)@ }),
            },
    {
        let n = self.frames.len();
        let line: usize = if n > 0 {
            let frame = &self.frames[n - 1];
            assert(self@.top() == (FrameModel {
                chunk: frame.chunk@,
                ip: frame.ip as int,
                locals: frame.locals@,
            }));
            if frame.ip > 0 {
                line_of(&frame.chunk, frame.ip - 1)
            } else {
                0
            }
        } else {
            0
        };
        let request = self.pending.take().unwrap();
        match (request, reply) {
            (Request::Input(_), Reply::Line(raw)) => {
                let text = strip_line_end(raw.as_str());
                self.push_value(Value::Str(text));
                Ok(())
            },
            (Request::ReadFile(_), Reply::Contents(text)) => {
                self.push_value(Value::Str(text));
                Ok(())
            },
            (Request::ReadFile(path), Reply::Failed(reason)) => Err(
                WhispemError::at_line(ErrorKind::FileRead { path, reason }, line),
            ),
            (Request::WriteFile(_, _), Reply::Written) => {
                self.push_value(Value::Nil);
                Ok(())
            },
            (Request::WriteFile(path, _), Reply::Failed(reason)) => Err(
                WhispemError::at_line(ErrorKind::FileWrite { path, reason }, line),
            ),
            _ => Ok(()),
        }
    }
}

/// The entries `first`, followed by those that were taken after them.
pub open spec fn prepend(
    first: Seq<(Seq<char>, Data)>,
    rest: Result<(Seq<(Seq<char>, Data)>, Seq<Data>), ErrorModel>,
) -> Result<(Seq<(Seq<char>, Data)>, Seq<Data>), ErrorModel> {
    match rest {
        Ok(r) => Ok((first + r.0, r.1)),
        Err(e) => Err(e),
    }
}

proof fn lemma_prepend_empty(rest: Result<(Seq<(Seq<char>, Data)>, Seq<Data>), ErrorModel>)
    ensures
        prepend(Seq::empty(), rest) == rest,
{
    match rest {
        Ok(r) => {
            assert(Seq::<(Seq<char>, Data)>::empty() + r.0 =~= r.0);
        },
        Err(_) => {},
    }
}

proof fn lemma_prepend_step(
    first: Seq<(Seq<char>, Data)>,
    entry: (Seq<char>, Data),
    rest: Result<(Seq<(Seq<char>, Data)>, Seq<Data>), ErrorModel>,
)
    ensures
        prepend(first, prepend(seq![entry], rest)) == prepend(first.push(entry), rest),
{
    match rest {
        Ok(r) => {
            assert(first + (seq![entry] + r.0) =~= first.push(entry) + r.0);
        },
        Err(_) => {},
    }
}

/// The text without the line feeds at its end, and then without the
/// carriage returns at its end.
pub fn strip_line_end(raw: &str) -> (s: String)
    ensures
        s@ == strip_end(strip_end(raw@, '\n'), '\r'),
{
    let mut chars = chars_of(raw);
    while chars.len() > 0 && chars[chars.len() - 1] == '\n'
        invariant
            strip_end(raw@, '\n') == strip_end(chars@, '\n'),
        decreases chars@.len(),
    {
        chars.pop();
    }
    let ghost mid = chars@;
    while chars.len() > 0 && chars[chars.len() - 1] == '\r'
        invariant
            strip_end(mid, '\r') == strip_end(chars@, '\r'),
        decreases chars@.len(),
    {
        chars.pop();
    }
    string_of(&chars)
}

} // verus!

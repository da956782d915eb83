//! The compiler: from the statement tree to bytecode.

use vstd::prelude::*;
use vstd::string::*;
use crate::ast::{BinaryOp, Expr, LogicalOp, Stmt, UnaryOp};
use crate::chunk::{Chunk, ChunkModel};
use crate::dict::same_text;
use crate::error::{ErrorKind, Span, WhispemError, WhispemResult};
use crate::lowering::{
    CompilerModel,
    Failure,
    Fault,
    LoopModel,
    Lowered,
    TableModel,
    CODE_LIMIT,
    names_once,
    MAX_ARITY,
    ONE_BITS,
    define_function,
    empty_chunk,
    find_function,
    initial,
    lower_block,
    lower_expr,
    lower_exprs,
    lower_for_fetch,
    lower_for_init,
    lower_for_step,
    lower_for_test,
    lower_function,
    lower_functions,
    lower_pairs,
    lower_params,
    lower_program,
    lower_stmt,
    patch_all,
    sites_within,
};
use crate::number::Number;
use crate::opcode::OpCode;
use crate::text::{decimal, push_decimal};
use crate::value::{Data, Value};

verus! {

/// The compiled functions, by name, in the order in which their names
/// were first defined.  A table is valid when no name occurs twice:
/// [`FunctionTable::new`] makes a valid table, and
/// [`FunctionTable::insert`] keeps one valid.
#[derive(Debug)]
pub struct FunctionTable {
    pub entries: Vec<(String, Chunk)>,
}

impl View for FunctionTable {
    type V = TableModel;

    open spec fn view(&self) -> TableModel {
        Seq::new(self.entries@.len(), |i: int| (self.entries@[i].0@, self.entries@[i].1@))
    }
}

impl FunctionTable {
    /// The table without functions.
    pub fn new() -> (t: FunctionTable)
        ensures
            t@ == Seq::<(Seq<char>, ChunkModel)>::empty(),
            names_once(t@),
    {
        let t = FunctionTable { entries: Vec::new() };
        assert(t@ =~= Seq::<(Seq<char>, ChunkModel)>::empty());
        t
    }

    pub fn len(&self) -> (n: usize)
        ensures
            n == self@.len(),
    {
        self.entries.len()
    }

    /// The chunk of the function with the given name.
    pub fn get(&self, name: &str) -> (r: Option<&Chunk>)
        ensures
            match r {
                Some(c) => find_function(self@, name@) == Some(c@),
                None => find_function(self@, name@) is None,
            },
    {
        let mut i: usize = 0;
        proof {
            assert(self@.skip(0) =~= self@);
        }
        while i < self.entries.len()
            invariant
                i <= self.entries.len(),
                find_function(self@, name@) == find_function(self@.skip(i as int), name@),
            decreases self.entries.len() - i,
        {
            proof {
                assert(self@.skip(i as int)[0] == self@[i as int]);
                assert(self@.skip(i as int).skip(1) =~= self@.skip(i + 1));
            }
            if same_text(self.entries[i].0.as_str(), name) {
                return Some(&self.entries[i].1);
            }
            i += 1;
        }
        None
    }

    /// Defines a function; one of the same name is replaced.
    pub fn insert(&mut self, name: String, chunk: Chunk)
        ensures
            final(self)@ == define_function(old(self)@, name@, chunk@),
            names_once(old(self)@) ==> names_once(final(self)@),
    {
        let ghost before = self@;
        proof {
            if names_once(before) {
                crate::lowering::lemma_define_once(before, name@, chunk@);
            }
        }
        let mut i: usize = 0;
        proof {
            assert(before.skip(0) =~= before);
            assert(before.take(0) + define_function(before, name@, chunk@) =~= define_function(
                before,
                name@,
                chunk@,
            ));
        }
        while i < self.entries.len()
            invariant
                i <= self.entries.len(),
                self@ == before,
                before == old(self)@,
                names_once(before) ==> names_once(define_function(before, name@, chunk@)),
                define_function(before, name@, chunk@) == before.take(i as int) + define_function(
                    before.skip(i as int),
                    name@,
                    chunk@,
                ),
            decreases self.entries.len() - i,
        {
            let ghost tail = before.skip(i as int);
            proof {
                assert(tail[0] == before[i as int]);
                assert(tail.skip(1) =~= before.skip(i + 1));
            }
            if same_text(self.entries[i].0.as_str(), name.as_str()) {
                self.entries.set(i, (name, chunk));
                proof {
                    assert(self@ =~= before.take(i as int) + tail.update(0, (name@, chunk@)));
                }
                return ;
            }
            proof {
                assert(before.take(i + 1) + define_function(before.skip(i + 1), name@, chunk@)
                    =~= before.take(i as int) + (seq![tail[0]] + define_function(
                    tail.skip(1),
                    name@,
                    chunk@,
                )));
            }
            i += 1;
        }
        self.entries.push((name, chunk));
        proof {
            assert(before.skip(i as int) =~= Seq::<(Seq<char>, ChunkModel)>::empty());
            assert(self@ =~= before.take(i as int) + seq![(name@, chunk@)]);
        }
    }
}

/// The jumps of one loop that wait for their targets.
struct LoopContext {
    break_jumps: Vec<usize>,
    continue_jumps: Vec<usize>,
}

pub struct Compiler {
    current: Chunk,
    functions: FunctionTable,
    loop_stack: Vec<LoopContext>,
}

/// Whether an error reports the given failure: the same kind, at the
/// failure's line and column 0.
pub open spec fn is_failure(e: WhispemError, f: Failure) -> bool {
    &&& e.span == (Span { line: f.line, column: 0 })
    &&& match f.kind {
        Fault::TooManyConstants => e.kind is TooManyConstants,
        Fault::CodeTooLong => e.kind is CodeTooLong,
        Fault::BreakOutsideLoop => e.kind is BreakOutsideLoop,
        Fault::ContinueOutsideLoop => e.kind is ContinueOutsideLoop,
    }
}

/// Whether a result and the state left behind are what the model gives.
pub open spec fn refines(r: WhispemResult<()>, model: Lowered, after: CompilerModel) -> bool {
    match r {
        Ok(_) => model == Ok::<CompilerModel, Failure>(after),
        Err(e) => model is Err && is_failure(e, model->Err_0),
    }
}

/// What every step of a compilation keeps: the state stays well formed,
/// as many loops are open as before, and no code is taken away.
pub open spec fn extends(before: CompilerModel, after: CompilerModel) -> bool {
    &&& after.wf()
    &&& after.loops.len() == before.loops.len()
    &&& after.functions == before.functions
    &&& after.current.code.len() >= before.current.code.len()
}

/// A state whose code has only grown, with the same loops, is well
/// formed if its chunk is.
pub proof fn lemma_grow_wf(before: CompilerModel, after: CompilerModel)
    requires
        before.wf(),
        after.loops == before.loops,
        after.functions == before.functions,
        after.current.wf(),
        after.current.code.len() >= before.current.code.len(),
    ensures
        extends(before, after),
{
    assert forall|i: int| 0 <= i < after.loops.len() implies sites_within(
        (#[trigger] after.loops[i]).break_jumps,
        after.current.code.len(),
    ) && sites_within(after.loops[i].continue_jumps, after.current.code.len()) by {
        assert(sites_within(before.loops[i].break_jumps, before.current.code.len()));
        assert(sites_within(before.loops[i].continue_jumps, before.current.code.len()));
    }
}

pub proof fn lemma_exprs_error(c: CompilerModel, exprs: Seq<Expr>, line: usize, k: int)
    requires
        0 <= k <= exprs.len(),
        lower_exprs(c, exprs.take(k), line) is Err,
    ensures
        lower_exprs(c, exprs, line) == lower_exprs(c, exprs.take(k), line),
    decreases exprs.len() - k,
{
    if k < exprs.len() {
        assert(exprs.take(k + 1).drop_last() =~= exprs.take(k));
        lemma_exprs_error(c, exprs, line, k + 1);
    } else {
        assert(exprs.take(k) =~= exprs);
    }
}

pub proof fn lemma_pairs_error(c: CompilerModel, pairs: Seq<(Expr, Expr)>, line: usize, k: int)
    requires
        0 <= k <= pairs.len(),
        lower_pairs(c, pairs.take(k), line) is Err,
    ensures
        lower_pairs(c, pairs, line) == lower_pairs(c, pairs.take(k), line),
    decreases pairs.len() - k,
{
    if k < pairs.len() {
        assert(pairs.take(k + 1).drop_last() =~= pairs.take(k));
        lemma_pairs_error(c, pairs, line, k + 1);
    } else {
        assert(pairs.take(k) =~= pairs);
    }
}

pub proof fn lemma_block_error(c: CompilerModel, stmts: Seq<Stmt>, k: int)
    requires
        0 <= k <= stmts.len(),
        lower_block(c, stmts.take(k)) is Err,
    ensures
        lower_block(c, stmts) == lower_block(c, stmts.take(k)),
    decreases stmts.len() - k,
{
    if k < stmts.len() {
        assert(stmts.take(k + 1).drop_last() =~= stmts.take(k));
        lemma_block_error(c, stmts, k + 1);
    } else {
        assert(stmts.take(k) =~= stmts);
    }
}

pub proof fn lemma_functions_error(c: CompilerModel, stmts: Seq<Stmt>, k: int)
    requires
        0 <= k <= stmts.len(),
        lower_functions(c, stmts.take(k)) is Err,
    ensures
        lower_functions(c, stmts) == lower_functions(c, stmts.take(k)),
    decreases stmts.len() - k,
{
    if k < stmts.len() {
        assert(stmts.take(k + 1).drop_last() =~= stmts.take(k));
        lemma_functions_error(c, stmts, k + 1);
    } else {
        assert(stmts.take(k) =~= stmts);
    }
}

/// The models of the open loops.
closed spec fn loop_views(stack: Seq<LoopContext>) -> Seq<LoopModel> {
    Seq::new(
        stack.len(),
        |i: int|
            LoopModel {
                break_jumps: stack[i].break_jumps@,
                continue_jumps: stack[i].continue_jumps@,
            },
    )
}

/// The name of a hidden variable: the prefix and the depth in decimal.
fn hidden_name(prefix: &str, depth: usize) -> (s: String)
    ensures
        s@ == prefix@ + decimal(depth as nat),
{
    let mut s = String::from_str(prefix);
    push_decimal(&mut s, depth as u64);
    s
}

fn error_at(kind: ErrorKind, line: usize) -> (e: WhispemError)
    ensures
        e.kind == kind,
        e.span == (Span { line, column: 0 }),
{
    WhispemError::new(kind, Span::new(line, 0))
}

impl View for Compiler {
    type V = CompilerModel;

    closed spec fn view(&self) -> CompilerModel {
        CompilerModel {
            current: self.current@,
            functions: self.functions@,
            loops: loop_views(self.loop_stack@),
        }
    }
}

impl Compiler {
    pub fn new() -> (c: Compiler)
        ensures
            c@ == initial(),
    {
        let c = Compiler {
            current: Chunk::new("<main>"),
            functions: FunctionTable::new(),
            loop_stack: Vec::new(),
        };
        proof {
            assert(c@.loops =~= Seq::<LoopModel>::empty());
            assert(c@.current.code =~= Seq::<u8>::empty());
            assert(c@.current.constants =~= Seq::<Data>::empty());
            assert(c@.current.lines =~= Seq::<usize>::empty());
        }
        c
    }

    fn offset(&self) -> (n: usize)
        ensures
            n == self@.offset(),
    {
        self.current.current_offset()
    }

    fn emit_byte(&mut self, byte: u8, line: usize)
        requires
            old(self)@.wf(),
        ensures
            final(self)@ == old(self)@.emit_byte(byte, line),
            extends(old(self)@, final(self)@),
    {
        self.current.emit_byte(byte, line);
        proof {
            lemma_grow_wf(old(self)@, self@);
        }
    }

    fn emit_op(&mut self, op: OpCode, line: usize)
        requires
            old(self)@.wf(),
        ensures
            final(self)@ == old(self)@.emit_op(op, line),
            extends(old(self)@, final(self)@),
    {
        self.current.emit_op(op, line);
        proof {
            lemma_grow_wf(old(self)@, self@);
        }
    }

    fn emit_op_u8(&mut self, op: OpCode, operand: u8, line: usize)
        requires
            old(self)@.wf(),
        ensures
            final(self)@ == old(self)@.emit_op_u8(op, operand, line),
            extends(old(self)@, final(self)@),
    {
        self.current.emit_op_u8(op, operand, line);
        proof {
            lemma_grow_wf(old(self)@, self@);
        }
    }

    fn emit_jump_to(&mut self, op: OpCode, target: usize, line: usize)
        requires
            old(self)@.wf(),
        ensures
            final(self)@ == old(self)@.emit_jump_to(op, target as int, line),
            extends(old(self)@, final(self)@),
    {
        self.current.emit_op_u16(op, (target % 0x1_0000) as u16, line);
        proof {
            lemma_grow_wf(old(self)@, self@);
        }
    }

    /// Emits a jump with a placeholder and returns the placeholder's position.
    fn emit_jump(&mut self, op: OpCode, line: usize) -> (site: usize)
        requires
            old(self)@.wf(),
        ensures
            final(self)@ == old(self)@.emit_jump(op, line),
            extends(old(self)@, final(self)@),
            site == old(self)@.offset() + 1,
            site + 1 < final(self)@.offset(),
    {
        let site = self.current.emit_jump(op, line);
        proof {
            lemma_grow_wf(old(self)@, self@);
        }
        site
    }

    /// Gives the jump at `site` the end of the code as its target.
    fn patch_here(&mut self, site: usize)
        requires
            old(self)@.wf(),
            site + 1 < old(self)@.offset(),
        ensures
            final(self)@ == old(self)@.patch_here(site as int),
            extends(old(self)@, final(self)@),
    {
        let here = self.current.current_offset();
        self.current.patch_jump(site, here);
        proof {
            lemma_grow_wf(old(self)@, self@);
        }
    }

    fn emit_with_constant(&mut self, op: OpCode, value: Value, line: usize) -> (r: WhispemResult<
        (),
    >)
        requires
            old(self)@.wf(),
        ensures
            refines(r, old(self)@.emit_with_constant(op, value@, line), final(self)@),
            r is Ok ==> extends(old(self)@, final(self)@),
    {
        if !self.current.has_room(&value) {
            return Err(error_at(ErrorKind::TooManyConstants, line));
        }
        let index = self.current.add_constant(value);
        self.current.emit_op_u8(op, index, line);
        proof {
            lemma_grow_wf(old(self)@, self@);
        }
        Ok(())
    }

    fn push_loop(&mut self)
        requires
            old(self)@.wf(),
        ensures
            final(self)@ == old(self)@.push_loop(),
            final(self)@.wf(),
    {
        self.loop_stack.push(LoopContext { break_jumps: Vec::new(), continue_jumps: Vec::new() });
        proof {
            assert(self@.loops =~= old(self)@.loops.push(
                LoopModel { break_jumps: Seq::empty(), continue_jumps: Seq::empty() },
            ));
        }
    }

    /// Records the placeholder of a `break` (or, if `is_continue`, of a
    /// `continue`) with the innermost loop.
    fn record(&mut self, site: usize, is_continue: bool)
        requires
            old(self)@.wf(),
            old(self)@.loops.len() > 0,
            site + 1 < old(self)@.offset(),
        ensures
            final(self)@ == (if is_continue {
                old(self)@.push_continue(site)
            } else {
                old(self)@.push_break(site)
            }),
            extends(old(self)@, final(self)@),
    {
        let mut ctx = self.loop_stack.pop().unwrap();
        if is_continue {
            ctx.continue_jumps.push(site);
        } else {
            ctx.break_jumps.push(site);
        }
        self.loop_stack.push(ctx);
        proof {
            let want = if is_continue {
                old(self)@.push_continue(site)
            } else {
                old(self)@.push_break(site)
            };
            assert(self@.loops =~= want.loops);
            assert forall|i: int| 0 <= i < self@.loops.len() implies sites_within(
                (#[trigger] self@.loops[i]).break_jumps,
                self@.current.code.len(),
            ) && sites_within(self@.loops[i].continue_jumps, self@.current.code.len()) by {
                if i < self@.loops.len() - 1 {
                    assert(self@.loops[i] == old(self)@.loops[i]);
                } else {
                    let top = old(self)@.loops.last();
                    assert(sites_within(top.break_jumps, self@.current.code.len()));
                    assert(sites_within(top.continue_jumps, self@.current.code.len()));
                }
            }
        }
    }

    /// Gives every placeholder among `sites` the target `target`.
    fn patch_sites(&mut self, sites: &Vec<usize>, target: usize)
        requires
            old(self)@.wf(),
            sites_within(sites@, old(self)@.current.code.len()),
        ensures
            final(self)@ == (CompilerModel {
                current: patch_all(old(self)@.current, sites@, target as int),
                ..old(self)@
            }),
            extends(old(self)@, final(self)@),
            final(self)@.current.code.len() == old(self)@.current.code.len(),
    {
        let mut i: usize = 0;
        proof {
            assert(sites@.take(0) =~= Seq::<usize>::empty());
        }
        while i < sites.len()
            invariant
                i <= sites.len(),
                sites_within(sites@, old(self)@.current.code.len()),
                self@ == (CompilerModel {
                    current: patch_all(old(self)@.current, sites@.take(i as int), target as int),
                    ..old(self)@
                }),
                extends(old(self)@, self@),
                self@.current.code.len() == old(self)@.current.code.len(),
            decreases sites.len() - i,
        {
            proof {
                assert(sites@.take(i + 1).drop_last() =~= sites@.take(i as int));
                assert(sites@[i as int] + 1 < self@.current.code.len());
            }
            let ghost prev = self@;
            self.current.patch_jump(sites[i], target);
            proof {
                lemma_grow_wf(prev, self@);
            }
            i += 1;
        }
        proof {
            assert(sites@.take(sites.len() as int) =~= sites@);
        }
    }

    /// Ends the innermost loop: its `break`s jump to `exit`, its
    /// `continue`s to `next`.
    fn close_loop(&mut self, exit: usize, next: usize)
        requires
            old(self)@.wf(),
            old(self)@.loops.len() > 0,
        ensures
            final(self)@ == old(self)@.close_loop(exit as int, next as int),
            final(self)@.wf(),
            final(self)@.loops.len() == old(self)@.loops.len() - 1,
            final(self)@.current.code.len() == old(self)@.current.code.len(),
    {
        let ghost top = old(self)@.loops.last();
        let ctx = self.loop_stack.pop().unwrap();
        proof {
            assert(self@.loops =~= old(self)@.loops.drop_last());
            assert(ctx.break_jumps@ == top.break_jumps);
            assert(ctx.continue_jumps@ == top.continue_jumps);
            assert forall|i: int| 0 <= i < self@.loops.len() implies sites_within(
                (#[trigger] self@.loops[i]).break_jumps,
                self@.current.code.len(),
            ) && sites_within(self@.loops[i].continue_jumps, self@.current.code.len()) by {
                assert(self@.loops[i] == old(self)@.loops[i]);
            }
        }
        self.patch_sites(&ctx.break_jumps, exit);
        self.patch_sites(&ctx.continue_jumps, next);
    }

    fn compile_exprs(&mut self, exprs: &Vec<Expr>, line: usize) -> (r: WhispemResult<()>)
        requires
            old(self)@.wf(),
        ensures
            refines(r, lower_exprs(old(self)@, exprs@, line), final(self)@),
            r is Ok ==> extends(old(self)@, final(self)@),
        decreases exprs, 0nat,
    {
        let mut i: usize = 0;
        proof {
            assert(exprs@.take(0) =~= Seq::<Expr>::empty());
        }
        while i < exprs.len()
            invariant
                i <= exprs.len(),
                lower_exprs(old(self)@, exprs@.take(i as int), line) == Ok::<
                    CompilerModel,
                    Failure,
                >(self@),
                extends(old(self)@, self@),
            decreases exprs.len() - i,
        {
            proof {
                assert(exprs@.take(i + 1).drop_last() =~= exprs@.take(i as int));
                assert(exprs@.take(i + 1).last() == exprs@[i as int]);
            }
            match self.compile_expr(&exprs[i], line) {
                Ok(()) => {},
                Err(e) => {
                    proof {
                        lemma_exprs_error(old(self)@, exprs@, line, i + 1);
                    }
                    return Err(e);
                },
            }
            i += 1;
        }
        proof {
            assert(exprs@.take(exprs.len() as int) =~= exprs@);
        }
        Ok(())
    }

    fn compile_pairs(&mut self, pairs: &Vec<(Expr, Expr)>, line: usize) -> (r: WhispemResult<()>)
        requires
            old(self)@.wf(),
        ensures
            refines(r, lower_pairs(old(self)@, pairs@, line), final(self)@),
            r is Ok ==> extends(old(self)@, final(self)@),
        decreases pairs, 0nat,
    {
        let mut i: usize = 0;
        proof {
            assert(pairs@.take(0) =~= Seq::<(Expr, Expr)>::empty());
        }
        while i < pairs.len()
            invariant
                i <= pairs.len(),
                lower_pairs(old(self)@, pairs@.take(i as int), line) == Ok::<
                    CompilerModel,
                    Failure,
                >(self@),
                extends(old(self)@, self@),
            decreases pairs.len() - i,
        {
            proof {
                assert(pairs@.take(i + 1).drop_last() =~= pairs@.take(i as int));
                assert(pairs@.take(i + 1).last() == pairs@[i as int]);
            }
            match self.compile_expr(&pairs[i].0, line) {
                Ok(()) => {},
                Err(e) => {
                    proof {
                        lemma_pairs_error(old(self)@, pairs@, line, i + 1);
                    }
                    return Err(e);
                },
            }
            match self.compile_expr(&pairs[i].1, line) {
                Ok(()) => {},
                Err(e) => {
                    proof {
                        lemma_pairs_error(old(self)@, pairs@, line, i + 1);
                    }
                    return Err(e);
                },
            }
            i += 1;
        }
        proof {
            assert(pairs@.take(pairs.len() as int) =~= pairs@);
        }
        Ok(())
    }

    fn compile_expr(&mut self, expr: &Expr, line: usize) -> (r: WhispemResult<()>)
        requires
            old(self)@.wf(),
        ensures
            refines(r, lower_expr(old(self)@, *expr, line), final(self)@),
            r is Ok ==> extends(old(self)@, final(self)@),
        decreases expr, 1nat,
    {
        match expr {
            Expr::Number(n) => self.emit_with_constant(OpCode::PushConst, Value::Number(*n), line),
            Expr::Str(s) => self.emit_with_constant(OpCode::PushConst, Value::Str(s.clone()), line),
            Expr::Bool(b) => {
                if *b {
                    self.emit_op(OpCode::PushTrue, line);
                } else {
                    self.emit_op(OpCode::PushFalse, line);
                }
                Ok(())
            },
            Expr::Variable(name) => self.emit_with_constant(
                OpCode::Load,
                Value::Str(name.clone()),
                line,
            ),
            Expr::Array(elems) => {
                if elems.len() > MAX_ARITY {
                    return Err(error_at(ErrorKind::TooManyConstants, line));
                }
                self.compile_exprs(elems, line)?;
                self.emit_op_u8(OpCode::MakeArray, elems.len() as u8, line);
                Ok(())
            },
            Expr::Dict(pairs) => {
                if pairs.len() > MAX_ARITY {
                    return Err(error_at(ErrorKind::TooManyConstants, line));
                }
                self.compile_pairs(pairs, line)?;
                self.emit_op_u8(OpCode::MakeDict, pairs.len() as u8, line);
                Ok(())
            },
            Expr::Index { object, index } => {
                self.compile_expr(&**object, line)?;
                self.compile_expr(&**index, line)?;
                self.emit_op(OpCode::GetIndex, line);
                Ok(())
            },
            Expr::Binary { left, op, right } => {
                self.compile_expr(&**left, line)?;
                self.compile_expr(&**right, line)?;
                let opcode = match op {
                    BinaryOp::Add => OpCode::Add,
                    BinaryOp::Sub => OpCode::Sub,
                    BinaryOp::Mul => OpCode::Mul,
                    BinaryOp::Div => OpCode::Div,
                    BinaryOp::Mod => OpCode::Mod,
                    BinaryOp::Less => OpCode::Lt,
                    BinaryOp::LessEqual => OpCode::Lte,
                    BinaryOp::Greater => OpCode::Gt,
                    BinaryOp::GreaterEqual => OpCode::Gte,
                    BinaryOp::EqualEqual => OpCode::Eq,
                    BinaryOp::BangEqual => OpCode::Neq,
                };
                self.emit_op(opcode, line);
                Ok(())
            },
            Expr::Logical { left, op, right } => {
                self.compile_expr(&**left, line)?;
                let jump = match op {
                    LogicalOp::And => OpCode::PeekJumpIfFalse,
                    LogicalOp::Or => OpCode::PeekJumpIfTrue,
                };
                let site = self.emit_jump(jump, line);
                self.emit_op(OpCode::Pop, line);
                self.compile_expr(&**right, line)?;
                self.patch_here(site);
                Ok(())
            },
            Expr::Unary { op, operand } => {
                self.compile_expr(&**operand, line)?;
                match op {
                    UnaryOp::Not => self.emit_op(OpCode::Not, line),
                    UnaryOp::Neg => self.emit_op(OpCode::Neg, line),
                }
                Ok(())
            },
            Expr::Call { name, arguments, line: at } => {
                if arguments.len() > MAX_ARITY {
                    return Err(error_at(ErrorKind::TooManyConstants, *at));
                }
                self.compile_exprs(arguments, *at)?;
                self.emit_with_constant(OpCode::Call, Value::Str(name.clone()), *at)?;
                self.emit_byte(arguments.len() as u8, *at);
                Ok(())
            },
        }
    }

    fn compile_block(&mut self, stmts: &Vec<Stmt>) -> (r: WhispemResult<()>)
        requires
            old(self)@.wf(),
        ensures
            refines(r, lower_block(old(self)@, stmts@), final(self)@),
            r is Ok ==> extends(old(self)@, final(self)@),
        decreases stmts, 0nat,
    {
        let mut i: usize = 0;
        proof {
            assert(stmts@.take(0) =~= Seq::<Stmt>::empty());
        }
        while i < stmts.len()
            invariant
                i <= stmts.len(),
                lower_block(old(self)@, stmts@.take(i as int)) == Ok::<CompilerModel, Failure>(
                    self@,
                ),
                extends(old(self)@, self@),
            decreases stmts.len() - i,
        {
            proof {
                assert(stmts@.take(i + 1).drop_last() =~= stmts@.take(i as int));
                assert(stmts@.take(i + 1).last() == stmts@[i as int]);
            }
            match self.compile_stmt(&stmts[i]) {
                Ok(()) => {},
                Err(e) => {
                    proof {
                        lemma_block_error(old(self)@, stmts@, i + 1);
                    }
                    return Err(e);
                },
            }
            i += 1;
        }
        proof {
            assert(stmts@.take(stmts.len() as int) =~= stmts@);
        }
        Ok(())
    }

    /// Compiles one statement.  A `break` or a `continue` that is refused
    /// leaves the compiler as it was.
    fn compile_stmt(&mut self, stmt: &Stmt) -> (r: WhispemResult<()>)
        requires
            old(self)@.wf(),
        ensures
            refines(r, lower_stmt(old(self)@, *stmt), final(self)@),
            r is Ok ==> extends(old(self)@, final(self)@),
            (stmt is Break || stmt is Continue) && r is Err ==> final(self)@ == old(self)@,
        decreases stmt, 1nat,
    {
        match stmt {
            Stmt::Let { name, value, line } => {
                self.compile_expr(value, *line)?;
                self.emit_with_constant(OpCode::Store, Value::Str(name.clone()), *line)
            },
            Stmt::Print { value, line } => {
                self.compile_expr(value, *line)?;
                self.emit_op(OpCode::Print, *line);
                Ok(())
            },
            Stmt::If { .. } => self.compile_if(stmt),
            Stmt::While { .. } => self.compile_while(stmt),
            Stmt::For { .. } => self.compile_for(stmt),
            Stmt::Function { .. } => Ok(()),
            Stmt::Return { value, line } => {
                match value {
                    Some(e) => {
                        self.compile_expr(e, *line)?;
                        self.emit_op(OpCode::Return, *line);
                    },
                    None => {
                        self.emit_op(OpCode::ReturnNone, *line);
                    },
                }
                Ok(())
            },
            Stmt::Break { line } => {
                if self.loop_stack.len() == 0 {
                    return Err(error_at(ErrorKind::BreakOutsideLoop, *line));
                }
                let site = self.emit_jump(OpCode::Jump, *line);
                self.record(site, false);
                Ok(())
            },
            Stmt::Continue { line } => {
                if self.loop_stack.len() == 0 {
                    return Err(error_at(ErrorKind::ContinueOutsideLoop, *line));
                }
                let site = self.emit_jump(OpCode::Jump, *line);
                self.record(site, true);
                Ok(())
            },
            Stmt::IndexAssign { object, index, value, line } => {
                self.emit_with_constant(OpCode::Load, Value::Str(object.clone()), *line)?;
                self.compile_expr(index, *line)?;
                self.compile_expr(value, *line)?;
                self.emit_op(OpCode::SetIndex, *line);
                self.emit_with_constant(OpCode::Store, Value::Str(object.clone()), *line)
            },
            Stmt::Expression { expr, line } => {
                self.compile_expr(expr, *line)?;
                self.emit_op(OpCode::Pop, *line);
                Ok(())
            },
        }
    }

    fn compile_if(&mut self, stmt: &Stmt) -> (r: WhispemResult<()>)
        requires
            old(self)@.wf(),
            stmt is If,
        ensures
            refines(r, lower_stmt(old(self)@, *stmt), final(self)@),
            r is Ok ==> extends(old(self)@, final(self)@),
        decreases stmt, 0nat,
    {
        match stmt {
            Stmt::If { condition, then_branch, else_branch, line } => {
                self.compile_expr(condition, *line)?;
                let jump_else = self.emit_jump(OpCode::JumpIfFalse, *line);
                self.compile_block(then_branch)?;
                match else_branch {
                    Some(else_stmts) => {
                        let jump_end = self.emit_jump(OpCode::Jump, *line);
                        self.patch_here(jump_else);
                        self.compile_block(else_stmts)?;
                        self.patch_here(jump_end);
                    },
                    None => {
                        self.patch_here(jump_else);
                    },
                }
                Ok(())
            },
            _ => Ok(()),
        }
    }

    fn compile_while(&mut self, stmt: &Stmt) -> (r: WhispemResult<()>)
        requires
            old(self)@.wf(),
            stmt is While,
        ensures
            refines(r, lower_stmt(old(self)@, *stmt), final(self)@),
            r is Ok ==> extends(old(self)@, final(self)@),
        decreases stmt, 0nat,
    {
        match stmt {
            Stmt::While { condition, body, line } => {
                let loop_start = self.offset();
                self.push_loop();
                self.compile_expr(condition, *line)?;
                let exit = self.emit_jump(OpCode::JumpIfFalse, *line);
                self.compile_block(body)?;
                self.emit_jump_to(OpCode::Jump, loop_start, *line);
                let after = self.offset();
                self.patch_here(exit);
                self.close_loop(after, loop_start);
                Ok(())
            },
            _ => Ok(()),
        }
    }

    fn for_init(&mut self, depth: usize, iterable: &Expr, line: usize) -> (r: WhispemResult<()>)
        requires
            old(self)@.wf(),
        ensures
            refines(r, lower_for_init(old(self)@, depth as nat, *iterable, line), final(self)@),
            r is Ok ==> extends(old(self)@, final(self)@),
        decreases iterable, 2nat,
    {
        self.compile_expr(iterable, line)?;
        self.emit_with_constant(OpCode::Store, Value::Str(hidden_name("__iter_", depth)), line)?;
        self.emit_with_constant(OpCode::PushConst, Value::Number(Number::from_bits(0)), line)?;
        self.emit_with_constant(OpCode::Store, Value::Str(hidden_name("__idx_", depth)), line)
    }

    fn for_test(&mut self, depth: usize, line: usize) -> (r: WhispemResult<()>)
        requires
            old(self)@.wf(),
        ensures
            refines(r, lower_for_test(old(self)@, depth as nat, line), final(self)@),
            r is Ok ==> extends(old(self)@, final(self)@),
    {
        self.emit_with_constant(OpCode::Load, Value::Str(hidden_name("__idx_", depth)), line)?;
        self.emit_with_constant(OpCode::Load, Value::Str(hidden_name("__iter_", depth)), line)?;
        self.emit_with_constant(OpCode::Call, Value::Str(String::from_str("length")), line)?;
        self.emit_byte(1, line);
        self.emit_op(OpCode::Lt, line);
        Ok(())
    }

    fn for_fetch(&mut self, depth: usize, variable: &String, line: usize) -> (r: WhispemResult<
        (),
    >)
        requires
            old(self)@.wf(),
        ensures
            refines(r, lower_for_fetch(old(self)@, depth as nat, variable@, line), final(self)@),
            r is Ok ==> extends(old(self)@, final(self)@),
    {
        self.emit_with_constant(OpCode::Load, Value::Str(hidden_name("__iter_", depth)), line)?;
        self.emit_with_constant(OpCode::Load, Value::Str(hidden_name("__idx_", depth)), line)?;
        self.emit_op(OpCode::GetIndex, line);
        self.emit_with_constant(OpCode::Store, Value::Str(variable.clone()), line)
    }

    fn for_step(&mut self, depth: usize, start: usize, line: usize) -> (r: WhispemResult<()>)
        requires
            old(self)@.wf(),
        ensures
            refines(r, lower_for_step(old(self)@, depth as nat, start as int, line), final(self)@),
            r is Ok ==> extends(old(self)@, final(self)@),
    {
        self.emit_with_constant(OpCode::Load, Value::Str(hidden_name("__idx_", depth)), line)?;
        self.emit_with_constant(
            OpCode::PushConst,
            Value::Number(Number::from_bits(ONE_BITS)),
            line,
        )?;
        self.emit_op(OpCode::Add, line);
        self.emit_with_constant(OpCode::Store, Value::Str(hidden_name("__idx_", depth)), line)?;
        self.emit_jump_to(OpCode::Jump, start, line);
        Ok(())
    }

    fn compile_for(&mut self, stmt: &Stmt) -> (r: WhispemResult<()>)
        requires
            old(self)@.wf(),
            stmt is For,
        ensures
            refines(r, lower_stmt(old(self)@, *stmt), final(self)@),
            r is Ok ==> extends(old(self)@, final(self)@),
        decreases stmt, 0nat,
    {
        match stmt {
            Stmt::For { variable, iterable, body, line } => {
                let line = *line;
                let depth = self.loop_stack.len();
                self.for_init(depth, iterable, line)?;
                let loop_start = self.offset();
                self.push_loop();
                self.for_test(depth, line)?;
                let exit = self.emit_jump(OpCode::JumpIfFalse, line);
                self.for_fetch(depth, variable, line)?;
                self.compile_block(body)?;
                let continue_target = self.offset();
                self.for_step(depth, loop_start, line)?;
                let after = self.offset();
                self.patch_here(exit);
                self.close_loop(after, continue_target);
                Ok(())
            },
            _ => Ok(()),
        }
    }

    /// Stores the parameters, the last one first.
    fn compile_params(&mut self, params: &Vec<String>, line: usize) -> (r: WhispemResult<()>)
        requires
            old(self)@.wf(),
        ensures
            refines(r, lower_params(old(self)@, params@, line), final(self)@),
            r is Ok ==> extends(old(self)@, final(self)@),
    {
        let mut i: usize = params.len();
        proof {
            assert(params@.take(i as int) =~= params@);
        }
        while i > 0
            invariant
                i <= params.len(),
                extends(old(self)@, self@),
                lower_params(old(self)@, params@, line) == lower_params(
                    self@,
                    params@.take(i as int),
                    line,
                ),
            decreases i,
        {
            i -= 1;
            proof {
                assert(params@.take(i + 1).drop_last() =~= params@.take(i as int));
                assert(params@.take(i + 1).last() == params@[i as int]);
            }
            self.emit_with_constant(OpCode::Store, Value::Str(params[i].clone()), line)?;
        }
        Ok(())
    }

    fn compile_function(
        &mut self,
        name: &String,
        params: &Vec<String>,
        body: &Vec<Stmt>,
        line: usize,
    ) -> (r: WhispemResult<()>)
        requires
            old(self)@.wf(),
            old(self)@.loops.len() == 0,
        ensures
            refines(r, lower_function(old(self)@, name@, params@, body@, line), final(self)@),
            r is Ok ==> final(self)@.wf() && final(self)@.loops.len() == 0,
    {
        let mut parent = Chunk::new(name.as_str());
        parent.param_count = params.len();
        std::mem::swap(&mut self.current, &mut parent);
        proof {
            assert(self@.current.code =~= Seq::<u8>::empty());
            assert(self@.current.constants =~= Seq::<Data>::empty());
            assert(self@.current.lines =~= Seq::<usize>::empty());
            assert(self@.current == empty_chunk(name@, params@.len() as usize));
        }
        self.compile_params(params, line)?;
        self.compile_block(body)?;
        if self.current.code.len() >= CODE_LIMIT {
            return Err(error_at(ErrorKind::CodeTooLong, line));
        }
        self.emit_op(OpCode::ReturnNone, line);
        std::mem::swap(&mut self.current, &mut parent);
        proof {
            crate::lowering::lemma_define_wf(self@.functions, name@, parent@);
        }
        self.functions.insert(name.clone(), parent);
        Ok(())
    }

    /// Compiles a program into its main chunk and the table of its functions.
    ///
    /// A program with a `break` or `continue` outside any loop is refused,
    /// and so is one that needs more than 256 constants in one chunk, or has
    /// a literal or a call with more than 255 parts, or whose code is
    /// longer than 65535 bytes in one chunk.  The statements of a program
    /// that is compiled name at most 256 different constants: literals,
    /// variables and functions called.  In each chunk every jump leads
    /// to an instruction, and every instruction of a function finds the
    /// stack at one height, by whatever way it is reached; so does every
    /// instruction of the main chunk, if no `return` stands outside the
    /// functions.  No name occurs twice in the table.
    pub fn compile(self, program: Vec<Stmt>) -> (r: WhispemResult<(Chunk, FunctionTable)>)
        requires
            self@ == initial(),
        ensures
            match r {
                Ok(out) => lower_program(program@) == Ok::<(ChunkModel, TableModel), Failure>(
                    (out.0@, out.1@),
                ) && out.0@.wf() && crate::lowering::table_wf(out.1@) && crate::sound::chunk_sound(
                    out.0@,
                ) && crate::sound::table_sound(out.1@) && !crate::sound::escapes_program(
                    program@,
                ) && crate::level::table_even(out.1@) && (!crate::steady::leaves_block(program@)
                    ==> crate::level::chunk_even(out.0@, true)) && names_once(out.1@)
                    && crate::pool::wanted_block(program@).finite() && crate::pool::wanted_block(
                    program@,
                ).len() <= crate::chunk::MAX_CONSTANTS,
                Err(e) => lower_program(program@) is Err && is_failure(
                    e,
                    lower_program(program@)->Err_0,
                ),
            },
    {
        let mut this = self;
        let mut i: usize = 0;
        proof {
            assert(program@.take(0) =~= Seq::<Stmt>::empty());
        }
        while i < program.len()
            invariant
                i <= program.len(),
                lower_functions(initial(), program@.take(i as int)) == Ok::<
                    CompilerModel,
                    Failure,
                >(this@),
                this@.wf(),
                this@.loops.len() == 0,
            decreases program.len() - i,
        {
            proof {
                assert(program@.take(i + 1).drop_last() =~= program@.take(i as int));
                assert(program@.take(i + 1).last() == program@[i as int]);
            }
            match &program[i] {
                Stmt::Function { name, params, body, line } => {
                    match this.compile_function(name, params, body, *line) {
                        Ok(()) => {},
                        Err(e) => {
                            proof {
                                lemma_functions_error(initial(), program@, i + 1);
                            }
                            return Err(e);
                        },
                    }
                },
                _ => {},
            }
            i += 1;
        }
        proof {
            assert(program@.take(program.len() as int) =~= program@);
        }
        match this.compile_block(&program) {
            Ok(()) => {},
            Err(e) => {
                return Err(e);
            },
        }
        if this.current.code.len() >= CODE_LIMIT {
            return Err(error_at(ErrorKind::CodeTooLong, 0));
        }
        this.emit_op(OpCode::Halt, 0);
        proof {
            crate::sound::lemma_program_sound(program@);
            if crate::sound::escapes_program(program@) {
                crate::sound::lemma_escape_program(program@);
            }
            crate::sound::lemma_program_once(program@);
            assert forall|v: Data| crate::pool::wanted_block(program@).contains(v) implies #[trigger] this@.current.constants.contains(
                v,
            ) by {
                crate::pool::lemma_program_supplied(program@, v);
            }
            crate::pool::lemma_pool_counts(this@.current, crate::pool::wanted_block(program@));
            crate::ends::lemma_functions_level(program@);
            if !crate::steady::leaves_block(program@) {
                crate::ends::lemma_program_level(program@);
            }
        }
        Ok((this.current, this.functions))
    }
}

} // verus!

//! What the compiler produces, stated as functions on models: each kind
//! of statement and expression, and the bytecode that stands for it.

use vstd::prelude::*;
use crate::ast::{BinaryOp, Expr, LogicalOp, Stmt, UnaryOp};
use crate::chunk::ChunkModel;
use crate::opcode::OpCode;
use crate::text::decimal;
use crate::value::Data;

verus! {

/// The jumps of one loop whose targets are known only at the loop's end:
/// the positions of their placeholders.
pub struct LoopModel {
    pub break_jumps: Seq<usize>,
    pub continue_jumps: Seq<usize>,
}

/// The functions compiled so far, by name.
pub type TableModel = Seq<(Seq<char>, ChunkModel)>;

/// The state of a compilation.
pub struct CompilerModel {
    pub current: ChunkModel,
    pub functions: TableModel,
    pub loops: Seq<LoopModel>,
}

/// Why a program is not compiled.
pub enum Fault {
    TooManyConstants,
    BreakOutsideLoop,
    ContinueOutsideLoop,
    /// The code of one chunk is longer than a jump can reach.
    CodeTooLong,
}

/// A fault and the source line at which it was found.
pub struct Failure {
    pub kind: Fault,
    pub line: usize,
}

pub type Lowered = Result<CompilerModel, Failure>;

/// The longest code in which every jump target fits into its operand.
pub const CODE_LIMIT: usize = 0xFFFF;

/// The largest number of elements of a literal, and of arguments of a call.
pub const MAX_ARITY: usize = 255;

/// The bits of the number 1.
pub const ONE_BITS: u64 = 0x3FF0_0000_0000_0000;

/// The chunk of the function with the given name, if it is defined.
pub open spec fn find_function(table: TableModel, name: Seq<char>) -> Option<ChunkModel>
    decreases table.len(),
{
    if table.len() == 0 {
        None
    } else if table[0].0 == name {
        Some(table[0].1)
    } else {
        find_function(table.skip(1), name)
    }
}

/// The table after a function has been defined: a function of the same
/// name is replaced.
pub open spec fn define_function(table: TableModel, name: Seq<char>, chunk: ChunkModel)
    -> TableModel
    decreases table.len(),
{
    if table.len() == 0 {
        seq![(name, chunk)]
    } else if table[0].0 == name {
        table.update(0, (name, chunk))
    } else {
        seq![table[0]] + define_function(table.skip(1), name, chunk)
    }
}

/// Whether no name occurs twice in the table.
pub open spec fn names_once(table: TableModel) -> bool {
    forall|i: int, j: int|
        0 <= i < j < table.len() ==> (#[trigger] table[i]).0 != (#[trigger] table[j]).0
}

/// Whether the table holds the name.
pub open spec fn has_name(table: TableModel, name: Seq<char>) -> bool {
    exists|j: int| 0 <= j < table.len() && (#[trigger] table[j]).0 == name
}

/// Every name of a table in which a function has been defined is the
/// name of that function or was in the table.
pub proof fn lemma_define_names(table: TableModel, name: Seq<char>, chunk: ChunkModel, k: int)
    requires
        0 <= k < define_function(table, name, chunk).len(),
    ensures
        define_function(table, name, chunk)[k].0 == name || has_name(
            table,
            define_function(table, name, chunk)[k].0,
        ),
    decreases table.len(),
{
    let after = define_function(table, name, chunk);
    if table.len() == 0 {
    } else if table[0].0 == name {
        if k > 0 {
            assert(after[k] == table[k]);
        }
    } else {
        let rest = table.skip(1);
        let inner = define_function(rest, name, chunk);
        if k == 0 {
            assert(after[0] == table[0]);
        } else {
            assert(after[k] == inner[k - 1]);
            lemma_define_names(rest, name, chunk, k - 1);
            if inner[k - 1].0 != name {
                let j = choose|j: int| 0 <= j < rest.len() && (#[trigger] rest[j]).0 == inner[k - 1].0;
                assert(table[j + 1] == rest[j]);
            }
        }
    }
}

/// Defining a function keeps every name of the table single: a function
/// of the same name is replaced.
pub proof fn lemma_define_once(table: TableModel, name: Seq<char>, chunk: ChunkModel)
    requires
        names_once(table),
    ensures
        names_once(define_function(table, name, chunk)),
    decreases table.len(),
{
    let after = define_function(table, name, chunk);
    if table.len() == 0 {
    } else if table[0].0 == name {
        assert forall|i: int, j: int| 0 <= i < j < after.len() implies (#[trigger] after[i]).0 != (
        #[trigger] after[j]).0 by {
            assert(after[i].0 == table[i].0);
            assert(after[j].0 == table[j].0);
        }
    } else {
        let rest = table.skip(1);
        let inner = define_function(rest, name, chunk);
        assert(names_once(rest)) by {
            assert forall|i: int, j: int| 0 <= i < j < rest.len() implies (#[trigger] rest[i]).0 != (
            #[trigger] rest[j]).0 by {
                assert(rest[i] == table[i + 1]);
                assert(rest[j] == table[j + 1]);
            }
        }
        lemma_define_once(rest, name, chunk);
        assert forall|i: int, j: int| 0 <= i < j < after.len() implies (#[trigger] after[i]).0 != (
        #[trigger] after[j]).0 by {
            assert(after[j] == inner[j - 1]);
            if i == 0 {
                assert(after[0] == table[0]);
                lemma_define_names(rest, name, chunk, j - 1);
                if inner[j - 1].0 != name {
                    let k = choose|k: int|
                        0 <= k < rest.len() && (#[trigger] rest[k]).0 == inner[j - 1].0;
                    assert(rest[k] == table[k + 1]);
                }
            } else {
                assert(after[i] == inner[i - 1]);
            }
        }
    }
}

/// The code after the placeholders at `sites` have all been given `target`.
pub open spec fn patch_all(chunk: ChunkModel, sites: Seq<usize>, target: int) -> ChunkModel
    decreases sites.len(),
{
    if sites.len() == 0 {
        chunk
    } else {
        patch_all(chunk, sites.drop_last(), target).patch_jump(sites.last() as int, target)
    }
}

/// The instruction of a binary operator.
pub open spec fn binary_opcode(op: BinaryOp) -> OpCode {
    match op {
        BinaryOp::Add => OpCode::Add,
        BinaryOp::Sub => OpCode::Sub,
        BinaryOp::Mul => OpCode::Mul,
        BinaryOp::Div => OpCode::Div,
        BinaryOp::Mod => OpCode::Mod,
        BinaryOp::Less => OpCode::Lt,
        BinaryOp::LessEqual => OpCode::Lte,
        BinaryOp::Greater => OpCode::Gt,
        BinaryOp::GreaterEqual => OpCode::Gte,
        BinaryOp::EqualEqual => OpCode::Eq,
        BinaryOp::BangEqual => OpCode::Neq,
    }
}

/// The hidden variable that holds what a `for` loop at the given depth walks.
pub open spec fn iter_name(depth: nat) -> Seq<char> {
    "__iter_"@ + decimal(depth)
}

/// The hidden variable that holds the position of a `for` loop at the given depth.
pub open spec fn index_name(depth: nat) -> Seq<char> {
    "__idx_"@ + decimal(depth)
}

impl CompilerModel {
    pub open spec fn offset(self) -> int {
        self.current.code.len() as int
    }

    pub open spec fn emit_byte(self, byte: u8, line: usize) -> CompilerModel {
        CompilerModel { current: self.current.emit_byte(byte, line), ..self }
    }

    pub open spec fn emit_op(self, op: OpCode, line: usize) -> CompilerModel {
        CompilerModel { current: self.current.emit_op(op, line), ..self }
    }

    pub open spec fn emit_op_u8(self, op: OpCode, operand: u8, line: usize) -> CompilerModel {
        CompilerModel { current: self.current.emit_op_u8(op, operand, line), ..self }
    }

    /// A jump back to a target that is known; the operand holds its low 16 bits.
    pub open spec fn emit_jump_to(self, op: OpCode, target: int, line: usize) -> CompilerModel {
        CompilerModel {
            current: self.current.emit_op_u16(op, (target % 0x1_0000) as u16, line),
            ..self
        }
    }

    pub open spec fn emit_jump(self, op: OpCode, line: usize) -> CompilerModel {
        CompilerModel { current: self.current.emit_jump(op, line), ..self }
    }

    pub open spec fn patch_jump(self, at: int, target: int) -> CompilerModel {
        CompilerModel { current: self.current.patch_jump(at, target), ..self }
    }

    /// Gives the jump at `at` the current end of the code as its target.
    pub open spec fn patch_here(self, at: int) -> CompilerModel {
        self.patch_jump(at, self.offset())
    }

    /// Adds a constant, and then the instruction `op` with the constant's
    /// index as operand.  Fails when the pool is full.
    pub open spec fn emit_with_constant(self, op: OpCode, value: Data, line: usize) -> Lowered {
        if self.current.has_room(value) {
            Ok(
                CompilerModel { current: self.current.add_constant(value), ..self }.emit_op_u8(
                    op,
                    self.current.constant_index(value) as u8,
                    line,
                ),
            )
        } else {
            Err(Failure { kind: Fault::TooManyConstants, line })
        }
    }

    pub open spec fn push_loop(self) -> CompilerModel {
        CompilerModel {
            loops: self.loops.push(
                LoopModel { break_jumps: Seq::empty(), continue_jumps: Seq::empty() },
            ),
            ..self
        }
    }

    /// Records a `break` of the innermost loop.
    pub open spec fn push_break(self, site: usize) -> CompilerModel {
        let top = self.loops.last();
        CompilerModel {
            loops: self.loops.drop_last().push(
                LoopModel { break_jumps: top.break_jumps.push(site), ..top },
            ),
            ..self
        }
    }

    /// Records a `continue` of the innermost loop.
    pub open spec fn push_continue(self, site: usize) -> CompilerModel {
        let top = self.loops.last();
        CompilerModel {
            loops: self.loops.drop_last().push(
                LoopModel { continue_jumps: top.continue_jumps.push(site), ..top },
            ),
            ..self
        }
    }

    /// Ends the innermost loop: its `break`s jump to `exit`, its
    /// `continue`s to `next`.
    pub open spec fn close_loop(self, exit: int, next: int) -> CompilerModel {
        let top = self.loops.last();
        CompilerModel {
            current: patch_all(
                patch_all(self.current, top.break_jumps, exit),
                top.continue_jumps,
                next,
            ),
            loops: self.loops.drop_last(),
            ..self
        }
    }
}

/// A pool that holds 256 constants takes no other: an instruction that
/// needs a constant which the pool does not hold is not compiled, and the
/// fault is `TooManyConstants`.  A string that the pool holds is found
/// there, and its instruction is compiled.
pub proof fn lemma_pool_full(c: CompilerModel, op: OpCode, value: Data, line: usize)
    requires
        c.current.constants.len() >= crate::chunk::MAX_CONSTANTS,
    ensures
        !c.current.holds(value) ==> c.emit_with_constant(op, value, line) == Err::<
            CompilerModel,
            Failure,
        >(Failure { kind: Fault::TooManyConstants, line }),
        c.current.holds(value) ==> c.emit_with_constant(op, value, line) is Ok
            && c.emit_with_constant(op, value, line)->Ok_0.current.constants
            == c.current.constants,
{
}

/// Whether every chunk of the table is well formed.
pub open spec fn table_wf(table: TableModel) -> bool {
    forall|i: int| 0 <= i < table.len() ==> (#[trigger] table[i]).1.wf()
}

/// Defining a well-formed chunk keeps the table well formed.
pub proof fn lemma_define_wf(table: TableModel, name: Seq<char>, chunk: ChunkModel)
    requires
        table_wf(table),
        chunk.wf(),
    ensures
        table_wf(define_function(table, name, chunk)),
    decreases table.len(),
{
    let after = define_function(table, name, chunk);
    if table.len() == 0 {
    } else if table[0].0 == name {
        assert forall|i: int| 0 <= i < after.len() implies (#[trigger] after[i]).1.wf() by {
            if i > 0 {
                assert(after[i] == table[i]);
            }
        }
    } else {
        let rest = table.skip(1);
        assert(table_wf(rest)) by {
            assert forall|i: int| 0 <= i < rest.len() implies (#[trigger] rest[i]).1.wf() by {
                assert(rest[i] == table[i + 1]);
            }
        }
        lemma_define_wf(rest, name, chunk);
        let inner = define_function(rest, name, chunk);
        assert forall|i: int| 0 <= i < after.len() implies (#[trigger] after[i]).1.wf() by {
            if i == 0 {
                assert(after[0] == table[0]);
            } else {
                assert(after[i] == inner[i - 1]);
            }
        }
    }
}

/// Whether every recorded placeholder lies within the code.
pub open spec fn sites_within(sites: Seq<usize>, len: nat) -> bool {
    forall|i: int| 0 <= i < sites.len() ==> #[trigger] sites[i] + 1 < len
}

impl CompilerModel {
    /// The current chunk is well formed, and every placeholder that a
    /// loop has recorded lies within its code.
    pub open spec fn wf(self) -> bool {
        &&& self.current.wf()
        &&& table_wf(self.functions)
        &&& forall|i: int|
            0 <= i < self.loops.len() ==> sites_within(
                (#[trigger] self.loops[i]).break_jumps,
                self.current.code.len(),
            ) && sites_within(self.loops[i].continue_jumps, self.current.code.len())
    }
}

/// The expressions one after another.
pub open spec fn lower_exprs(c: CompilerModel, exprs: Seq<Expr>, line: usize) -> Lowered
    decreases exprs, 0nat,
{
    if exprs.len() == 0 {
        Ok(c)
    } else {
        match lower_exprs(c, exprs.drop_last(), line) {
            Ok(c1) => lower_expr(c1, exprs.last(), line),
            Err(f) => Err(f),
        }
    }
}

/// The entries of a dictionary literal one after another: each key, then its value.
pub open spec fn lower_pairs(c: CompilerModel, pairs: Seq<(Expr, Expr)>, line: usize) -> Lowered
    decreases pairs, 0nat,
{
    if pairs.len() == 0 {
        Ok(c)
    } else {
        match lower_pairs(c, pairs.drop_last(), line) {
            Ok(c1) => match lower_expr(c1, pairs.last().0, line) {
                Ok(c2) => lower_expr(c2, pairs.last().1, line),
                Err(f) => Err(f),
            },
            Err(f) => Err(f),
        }
    }
}

/// The code that leaves the value of an expression on the stack.
pub open spec fn lower_expr(c: CompilerModel, expr: Expr, line: usize) -> Lowered
    decreases expr, 1nat,
{
    match expr {
        Expr::Number(n) => c.emit_with_constant(OpCode::PushConst, Data::Number(n.bits), line),
        Expr::Str(s) => c.emit_with_constant(OpCode::PushConst, Data::Str(s@), line),
        Expr::Bool(b) => Ok(
            c.emit_op(
                if b {
                    OpCode::PushTrue
                } else {
                    OpCode::PushFalse
                },
                line,
            ),
        ),
        Expr::Variable(name) => c.emit_with_constant(OpCode::Load, Data::Str(name@), line),
        Expr::Array(elems) => if elems@.len() > MAX_ARITY {
            Err(Failure { kind: Fault::TooManyConstants, line })
        } else {
            match lower_exprs(c, elems@, line) {
                Ok(c1) => Ok(c1.emit_op_u8(OpCode::MakeArray, elems@.len() as u8, line)),
                Err(f) => Err(f),
            }
        },
        Expr::Dict(pairs) => if pairs@.len() > MAX_ARITY {
            Err(Failure { kind: Fault::TooManyConstants, line })
        } else {
            match lower_pairs(c, pairs@, line) {
                Ok(c1) => Ok(c1.emit_op_u8(OpCode::MakeDict, pairs@.len() as u8, line)),
                Err(f) => Err(f),
            }
        },
        Expr::Index { object, index } => match lower_expr(c, *object, line) {
            Ok(c1) => match lower_expr(c1, *index, line) {
                Ok(c2) => Ok(c2.emit_op(OpCode::GetIndex, line)),
                Err(f) => Err(f),
            },
            Err(f) => Err(f),
        },
        Expr::Binary { left, op, right } => match lower_expr(c, *left, line) {
            Ok(c1) => match lower_expr(c1, *right, line) {
                Ok(c2) => Ok(c2.emit_op(binary_opcode(op), line)),
                Err(f) => Err(f),
            },
            Err(f) => Err(f),
        },
        Expr::Logical { left, op, right } => match lower_expr(c, *left, line) {
            Ok(c1) => {
                let jump = match op {
                    LogicalOp::And => OpCode::PeekJumpIfFalse,
                    LogicalOp::Or => OpCode::PeekJumpIfTrue,
                };
                let c2 = c1.emit_jump(jump, line).emit_op(OpCode::Pop, line);
                match lower_expr(c2, *right, line) {
                    Ok(c3) => Ok(c3.patch_here(c1.offset() + 1)),
                    Err(f) => Err(f),
                }
            },
            Err(f) => Err(f),
        },
        Expr::Unary { op, operand } => match lower_expr(c, *operand, line) {
            Ok(c1) => Ok(
                c1.emit_op(
                    match op {
                        UnaryOp::Not => OpCode::Not,
                        UnaryOp::Neg => OpCode::Neg,
                    },
                    line,
                ),
            ),
            Err(f) => Err(f),
        },
        Expr::Call { name, arguments, line: at } => if arguments@.len() > MAX_ARITY {
            Err(Failure { kind: Fault::TooManyConstants, line: at })
        } else {
            match lower_exprs(c, arguments@, at) {
                Ok(c1) => match c1.emit_with_constant(OpCode::Call, Data::Str(name@), at) {
                    Ok(c2) => Ok(c2.emit_byte(arguments@.len() as u8, at)),
                    Err(f) => Err(f),
                },
                Err(f) => Err(f),
            }
        },
    }
}

/// The statements one after another.
pub open spec fn lower_block(c: CompilerModel, stmts: Seq<Stmt>) -> Lowered
    decreases stmts, 0nat,
{
    if stmts.len() == 0 {
        Ok(c)
    } else {
        match lower_block(c, stmts.drop_last()) {
            Ok(c1) => lower_stmt(c1, stmts.last()),
            Err(f) => Err(f),
        }
    }
}

/// The start of a `for` loop at the given depth: the value to walk and
/// the position 0 are stored in the loop's hidden variables.
pub open spec fn lower_for_init(c: CompilerModel, depth: nat, iterable: Expr, line: usize)
    -> Lowered {
    match lower_expr(c, iterable, line) {
        Ok(c1) => match c1.emit_with_constant(OpCode::Store, Data::Str(iter_name(depth)), line) {
            Ok(c2) => match c2.emit_with_constant(OpCode::PushConst, Data::Number(0), line) {
                Ok(c3) => c3.emit_with_constant(OpCode::Store, Data::Str(index_name(depth)), line),
                Err(f) => Err(f),
            },
            Err(f) => Err(f),
        },
        Err(f) => Err(f),
    }
}

/// The test of a `for` loop: whether the position is below the length of
/// what is walked.
pub open spec fn lower_for_test(c: CompilerModel, depth: nat, line: usize) -> Lowered {
    match c.emit_with_constant(OpCode::Load, Data::Str(index_name(depth)), line) {
        Ok(c1) => match c1.emit_with_constant(OpCode::Load, Data::Str(iter_name(depth)), line) {
            Ok(c2) => match c2.emit_with_constant(OpCode::Call, Data::Str("length"@), line) {
                Ok(c3) => Ok(c3.emit_byte(1, line).emit_op(OpCode::Lt, line)),
                Err(f) => Err(f),
            },
            Err(f) => Err(f),
        },
        Err(f) => Err(f),
    }
}

/// The start of each round of a `for` loop: the element at the position
/// is stored in the loop's variable.
pub open spec fn lower_for_fetch(c: CompilerModel, depth: nat, variable: Seq<char>, line: usize)
    -> Lowered {
    match c.emit_with_constant(OpCode::Load, Data::Str(iter_name(depth)), line) {
        Ok(c1) => match c1.emit_with_constant(OpCode::Load, Data::Str(index_name(depth)), line) {
            Ok(c2) => c2.emit_op(OpCode::GetIndex, line).emit_with_constant(
                OpCode::Store,
                Data::Str(variable),
                line,
            ),
            Err(f) => Err(f),
        },
        Err(f) => Err(f),
    }
}

/// The end of each round of a `for` loop: the position is raised by one,
/// and the loop starts over at `start`.
pub open spec fn lower_for_step(c: CompilerModel, depth: nat, start: int, line: usize) -> Lowered {
    match c.emit_with_constant(OpCode::Load, Data::Str(index_name(depth)), line) {
        Ok(c1) => match c1.emit_with_constant(OpCode::PushConst, Data::Number(ONE_BITS), line) {
            Ok(c2) => match c2.emit_op(OpCode::Add, line).emit_with_constant(
                OpCode::Store,
                Data::Str(index_name(depth)),
                line,
            ) {
                Ok(c3) => Ok(c3.emit_jump_to(OpCode::Jump, start, line)),
                Err(f) => Err(f),
            },
            Err(f) => Err(f),
        },
        Err(f) => Err(f),
    }
}

/// The code that carries out a statement.
pub open spec fn lower_stmt(c: CompilerModel, stmt: Stmt) -> Lowered
    decreases stmt, 1nat,
{
    match stmt {
        Stmt::Let { name, value, line } => match lower_expr(c, value, line) {
            Ok(c1) => c1.emit_with_constant(OpCode::Store, Data::Str(name@), line),
            Err(f) => Err(f),
        },
        Stmt::Print { value, line } => match lower_expr(c, value, line) {
            Ok(c1) => Ok(c1.emit_op(OpCode::Print, line)),
            Err(f) => Err(f),
        },
        Stmt::If { condition, then_branch, else_branch, line } => match lower_expr(
            c,
            condition,
            line,
        ) {
            Ok(c1) => match lower_block(c1.emit_jump(OpCode::JumpIfFalse, line), then_branch@) {
                Ok(c2) => match else_branch {
                    Some(else_stmts) => {
                        let c3 = c2.emit_jump(OpCode::Jump, line).patch_here(c1.offset() + 1);
                        match lower_block(c3, else_stmts@) {
                            Ok(c4) => Ok(c4.patch_here(c2.offset() + 1)),
                            Err(f) => Err(f),
                        }
                    },
                    None => Ok(c2.patch_here(c1.offset() + 1)),
                },
                Err(f) => Err(f),
            },
            Err(f) => Err(f),
        },
        Stmt::While { condition, body, line } => match lower_expr(c.push_loop(), condition, line) {
            Ok(c1) => match lower_block(c1.emit_jump(OpCode::JumpIfFalse, line), body@) {
                Ok(c2) => {
                    let c3 = c2.emit_jump_to(OpCode::Jump, c.offset(), line);
                    Ok(c3.patch_here(c1.offset() + 1).close_loop(c3.offset(), c.offset()))
                },
                Err(f) => Err(f),
            },
            Err(f) => Err(f),
        },
        Stmt::For { variable, iterable, body, line } => {
            let depth = c.loops.len();
            match lower_for_init(c, depth, iterable, line) {
                Ok(c1) => match lower_for_test(c1.push_loop(), depth, line) {
                    Ok(c2) => match lower_for_fetch(
                        c2.emit_jump(OpCode::JumpIfFalse, line),
                        depth,
                        variable@,
                        line,
                    ) {
                        Ok(c3) => match lower_block(c3, body@) {
                            Ok(c4) => match lower_for_step(c4, depth, c1.offset(), line) {
                                Ok(c5) => Ok(
                                    c5.patch_here(c2.offset() + 1).close_loop(
                                        c5.offset(),
                                        c4.offset(),
                                    ),
                                ),
                                Err(f) => Err(f),
                            },
                            Err(f) => Err(f),
                        },
                        Err(f) => Err(f),
                    },
                    Err(f) => Err(f),
                },
                Err(f) => Err(f),
            }
        },
        Stmt::Function { .. } => Ok(c),
        Stmt::Return { value, line } => match value {
            Some(e) => match lower_expr(c, e, line) {
                Ok(c1) => Ok(c1.emit_op(OpCode::Return, line)),
                Err(f) => Err(f),
            },
            None => Ok(c.emit_op(OpCode::ReturnNone, line)),
        },
        Stmt::Break { line } => if c.loops.len() == 0 {
            Err(Failure { kind: Fault::BreakOutsideLoop, line })
        } else {
            Ok(c.emit_jump(OpCode::Jump, line).push_break((c.offset() + 1) as usize))
        },
        Stmt::Continue { line } => if c.loops.len() == 0 {
            Err(Failure { kind: Fault::ContinueOutsideLoop, line })
        } else {
            Ok(c.emit_jump(OpCode::Jump, line).push_continue((c.offset() + 1) as usize))
        },
        Stmt::IndexAssign { object, index, value, line } => match c.emit_with_constant(
            OpCode::Load,
            Data::Str(object@),
            line,
        ) {
            Ok(c1) => match lower_expr(c1, index, line) {
                Ok(c2) => match lower_expr(c2, value, line) {
                    Ok(c3) => c3.emit_op(OpCode::SetIndex, line).emit_with_constant(
                        OpCode::Store,
                        Data::Str(object@),
                        line,
                    ),
                    Err(f) => Err(f),
                },
                Err(f) => Err(f),
            },
            Err(f) => Err(f),
        },
        Stmt::Expression { expr, line } => match lower_expr(c, expr, line) {
            Ok(c1) => Ok(c1.emit_op(OpCode::Pop, line)),
            Err(f) => Err(f),
        },
    }
}

/// The parameters of a function, the last one first: each is stored from
/// the top of the stack.
pub open spec fn lower_params(c: CompilerModel, params: Seq<String>, line: usize) -> Lowered
    decreases params.len(),
{
    if params.len() == 0 {
        Ok(c)
    } else {
        match c.emit_with_constant(OpCode::Store, Data::Str(params.last()@), line) {
            Ok(c1) => lower_params(c1, params.drop_last(), line),
            Err(f) => Err(f),
        }
    }
}

/// An empty chunk with the given name, for a function of so many parameters.
pub open spec fn empty_chunk(name: Seq<char>, param_count: usize) -> ChunkModel {
    ChunkModel {
        code: Seq::empty(),
        constants: Seq::empty(),
        lines: Seq::empty(),
        name,
        param_count,
    }
}

/// A function: a chunk of its own, which stores the parameters, carries
/// out the body and returns none at its end.  A chunk of more than 65535
/// bytes, in which a jump could not reach every instruction, is refused.
pub open spec fn lower_function(
    c: CompilerModel,
    name: Seq<char>,
    params: Seq<String>,
    body: Seq<Stmt>,
    line: usize,
) -> Lowered {
    match lower_params(
        CompilerModel { current: empty_chunk(name, params.len() as usize), ..c },
        params,
        line,
    ) {
        Ok(c1) => match lower_block(c1, body) {
            Ok(c2) => if c2.current.code.len() >= CODE_LIMIT {
                Err(Failure { kind: Fault::CodeTooLong, line })
            } else {
                Ok(
                    CompilerModel {
                        current: c.current,
                        functions: define_function(
                            c2.functions,
                            name,
                            c2.current.emit_op(OpCode::ReturnNone, line),
                        ),
                        loops: c2.loops,
                    },
                )
            },
            Err(f) => Err(f),
        },
        Err(f) => Err(f),
    }
}

/// The functions among the statements, one after another.
pub open spec fn lower_functions(c: CompilerModel, stmts: Seq<Stmt>) -> Lowered
    decreases stmts.len(),
{
    if stmts.len() == 0 {
        Ok(c)
    } else {
        match lower_functions(c, stmts.drop_last()) {
            Ok(c1) => match stmts.last() {
                Stmt::Function { name, params, body, line } => lower_function(
                    c1,
                    name@,
                    params@,
                    body@,
                    line,
                ),
                _ => Ok(c1),
            },
            Err(f) => Err(f),
        }
    }
}

/// The state in which a compilation starts.
pub open spec fn initial() -> CompilerModel {
    CompilerModel {
        current: empty_chunk("<main>"@, 0),
        functions: Seq::empty(),
        loops: Seq::empty(),
    }
}

/// A whole program: first its functions, each into a chunk of its own,
/// then its other statements into the main chunk, which ends with `HALT`.
/// A main chunk of more than 65535 bytes is refused.
pub open spec fn lower_program(program: Seq<Stmt>) -> Result<(ChunkModel, TableModel), Failure> {
    match lower_functions(initial(), program) {
        Ok(c1) => match lower_block(c1, program) {
            Ok(c2) => if c2.current.code.len() >= CODE_LIMIT {
                Err(Failure { kind: Fault::CodeTooLong, line: 0 })
            } else {
                Ok((c2.current.emit_op(OpCode::Halt, 0), c2.functions))
            },
            Err(f) => Err(f),
        },
        Err(f) => Err(f),
    }
}

} // verus!

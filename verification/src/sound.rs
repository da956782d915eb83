//! Every program that compiles is compiled into code whose jumps lead
//! to instructions.

use vstd::prelude::*;
use crate::ast::{Expr, LogicalOp, Stmt, UnaryOp};
use crate::chunk::ChunkModel;
use crate::frames::{
    lemma_bracket,
    lemma_for_fetch,
    lemma_for_step,
    lemma_for_test,
    lemma_longer_boundary,
    lemma_longer_len,
    lemma_longer_of_grows,
    lemma_longer_refl,
    lemma_longer_trans,
    lemma_then_call,
    lemma_then_constant,
    lemma_then_jump,
    lemma_then_plain,
    lemma_then_u8,
    lemma_tidy_end,
    longer,
    ok_expr,
    ok_stmt,
};
use crate::layout::{boundary, is_jump_at, jumps_valid, settled, target_at};
use crate::lowering::{
    CompilerModel, TableModel, binary_opcode, define_function, empty_chunk, index_name, initial,
    iter_name, lower_block, lower_expr, lower_exprs, lower_for_fetch, lower_for_init,
    lower_for_step, lower_for_test, lower_function, lower_functions, lower_pairs, lower_params,
    lower_program, lower_stmt, names_once,
};
use crate::opcode::OpCode;
use crate::shape::{CODE_LIMIT, grows, in_loop, tidy, tidy_code, waiting};
use crate::steps::{
    lemma_close_loop,
    lemma_close_loop_frame,
    lemma_emit_jump,
    lemma_emit_jump_to,
    lemma_emit_plain,
    lemma_patch_here,
    lemma_push_loop,
    lemma_record,
    record,
};
use crate::value::Data;

verus! {

/// A `break` or `continue`: a jump whose placeholder the innermost loop records.
pub proof fn lemma_break_sound(c: CompilerModel, held: Set<int>, line: usize, is_continue: bool)
    requires
        tidy(c, held),
        c.loops.len() > 0,
    ensures
        ok_stmt(
            c,
            record(c.emit_jump(OpCode::Jump, line), (c.offset() + 1) as usize, is_continue),
            held,
        ),
{
    reveal(longer);
    let j = c.emit_jump(OpCode::Jump, line);
    let site = (c.offset() + 1) as usize;
    lemma_emit_jump(c, held, OpCode::Jump, line);
    if j.current.code.len() <= CODE_LIMIT {
        assert(site as int == c.offset() + 1);
    }
    lemma_record(j, held, site, is_continue);
    let d = record(j, site, is_continue);
    if d.current.code.len() <= CODE_LIMIT {
        assert(grows(c, j));
        assert forall|i: int| 0 <= i < c.loops.len() - 1 implies d.loops[i] == c.loops[i] by {
            assert(d.loops[i] == j.loops[i]);
        }
        assert(grows(c, d));
    }
}

/// The end of a loop: all that was compiled since the loop opened is
/// tidy code after what stood before the loop.
pub proof fn lemma_loop_end(
    c: CompilerModel,
    e: CompilerModel,
    held: Set<int>,
    exit: int,
    next: int,
)
    requires
        longer(c.push_loop(), e),
        tidy(e, held),
        0 <= exit <= e.current.code.len(),
        0 <= next <= e.current.code.len(),
        e.current.code.len() <= CODE_LIMIT ==> boundary(e.current.code, exit) && boundary(
            e.current.code,
            next,
        ),
    ensures
        ok_stmt(c, e.close_loop(exit, next), held),
{
    reveal(longer);
    let c1 = c.push_loop();
    let d = e.close_loop(exit, next);
    lemma_close_loop(e, held, exit, next);
    lemma_close_loop_frame(e, exit, next);
    if d.current.code.len() <= CODE_LIMIT {
        assert(grows(c1, e));
        let top = e.loops.last();
        assert forall|p: int| in_loop(top, p) implies c.current.code.len() <= p by {
            assert(in_loop(e.loops.last(), p) ==> in_loop(c1.loops.last(), p)
                || c1.current.code.len() <= p);
            assert(!in_loop(c1.loops.last(), p)) by {
                assert(c1.loops.last().break_jumps.len() == 0);
                assert(c1.loops.last().continue_jumps.len() == 0);
            }
        }
        assert forall|i: int| 0 <= i < c.current.code.len() implies c.current.code[i]
            == d.current.code[i] by {
            assert(c1.current.code[i] == e.current.code[i]);
            assert(!in_loop(top, i));
            assert(!in_loop(top, i - 1));
        }
        assert forall|i: int| 0 <= i < c.loops.len() implies d.loops[i] == c.loops[i] by {
            assert(d.loops[i] == e.loops[i]);
            assert(e.loops[i] == c1.loops[i]);
        }
        assert(d.loops =~= c.loops);
        assert(grows(c, d));
    }
}

/// The start of a `for` loop, after the code of what it walks.
pub proof fn lemma_for_init_tail(
    c: CompilerModel,
    e: CompilerModel,
    held: Set<int>,
    depth: nat,
    line: usize,
)
    requires
        ok_expr(c, e, held),
        e.emit_with_constant(OpCode::Store, Data::Str(iter_name(depth)), line) is Ok,
        e.emit_with_constant(OpCode::Store, Data::Str(iter_name(depth)), line)->Ok_0.emit_with_constant(
            OpCode::PushConst,
            Data::Number(0),
            line,
        ) is Ok,
        e.emit_with_constant(OpCode::Store, Data::Str(iter_name(depth)), line)->Ok_0.emit_with_constant(
            OpCode::PushConst,
            Data::Number(0),
            line,
        )->Ok_0.emit_with_constant(OpCode::Store, Data::Str(index_name(depth)), line) is Ok,
    ensures
        ok_expr(
            c,
            e.emit_with_constant(OpCode::Store, Data::Str(iter_name(depth)), line)->Ok_0.emit_with_constant(
                OpCode::PushConst,
                Data::Number(0),
                line,
            )->Ok_0.emit_with_constant(OpCode::Store, Data::Str(index_name(depth)), line)->Ok_0,
            held,
        ),
{
    let e1 = e.emit_with_constant(OpCode::Store, Data::Str(iter_name(depth)), line)->Ok_0;
    lemma_then_constant(c, e, held, OpCode::Store, Data::Str(iter_name(depth)), line);
    let e2 = e1.emit_with_constant(OpCode::PushConst, Data::Number(0), line)->Ok_0;
    lemma_then_constant(c, e1, held, OpCode::PushConst, Data::Number(0), line);
    lemma_then_constant(c, e2, held, OpCode::Store, Data::Str(index_name(depth)), line);
}

/// A `while` loop, given that its test and its body are tidy code.
pub proof fn lemma_while_sound(
    c: CompilerModel,
    c2: CompilerModel,
    c4: CompilerModel,
    held: Set<int>,
    line: usize,
)
    requires
        tidy(c, held),
        ok_expr(c.push_loop(), c2, held),
        ok_stmt(c2.emit_jump(OpCode::JumpIfFalse, line), c4, held.insert(c2.offset() + 1)),
    ensures
        ok_stmt(
            c,
            c4.emit_jump_to(OpCode::Jump, c.offset(), line).patch_here(
                c2.offset() + 1,
            ).close_loop(c4.emit_jump_to(OpCode::Jump, c.offset(), line).offset(), c.offset()),
            held,
        ),
{
    let c1 = c.push_loop();
    let s = c2.offset() + 1;
    let held1 = held.insert(s);
    let j = c2.emit_jump(OpCode::JumpIfFalse, line);
    lemma_then_jump(c1, c2, held, OpCode::JumpIfFalse, line);
    lemma_longer_trans(c1, j, c4);
    lemma_longer_len(c1, c2);
    lemma_longer_len(c1, c4);
    if c4.current.code.len() <= CODE_LIMIT {
        lemma_tidy_end(c, held);
        lemma_longer_boundary(c1, c4, c.offset());
    }
    let c5 = c4.emit_jump_to(OpCode::Jump, c.offset(), line);
    lemma_emit_jump_to(c4, held1, c.offset(), line);
    lemma_longer_of_grows(c4, c5);
    lemma_longer_trans(c1, c4, c5);
    lemma_bracket(c1, c5, held, s);
    let c6 = c5.patch_here(s);
    if c6.current.code.len() <= CODE_LIMIT {
        lemma_tidy_end(c6, held);
        lemma_tidy_end(c, held);
        lemma_longer_boundary(c1, c6, c.offset());
    }
    lemma_longer_len(c1, c6);
    lemma_loop_end(c, c6, held, c5.offset(), c.offset());
}

/// A `for` loop, given that its parts are tidy code.
pub proof fn lemma_for_sound(
    c: CompilerModel,
    c1: CompilerModel,
    c2: CompilerModel,
    c4: CompilerModel,
    held: Set<int>,
    depth: nat,
    line: usize,
)
    requires
        tidy(c, held),
        ok_expr(c, c1, held),
        ok_expr(c1.push_loop(), c2, held),
        ok_stmt(c2.emit_jump(OpCode::JumpIfFalse, line), c4, held.insert(c2.offset() + 1)),
        lower_for_step(c4, depth, c1.offset(), line) is Ok,
    ensures
        ok_stmt(
            c,
            lower_for_step(c4, depth, c1.offset(), line)->Ok_0.patch_here(
                c2.offset() + 1,
            ).close_loop(lower_for_step(c4, depth, c1.offset(), line)->Ok_0.offset(), c4.offset()),
            held,
        ),
{
    let c1p = c1.push_loop();
    let s = c2.offset() + 1;
    let held1 = held.insert(s);
    let j = c2.emit_jump(OpCode::JumpIfFalse, line);
    lemma_then_jump(c1p, c2, held, OpCode::JumpIfFalse, line);
    lemma_longer_trans(c1p, j, c4);
    lemma_longer_len(c1p, c2);
    lemma_longer_len(c1p, c4);
    lemma_longer_len(c, c1);
    if c4.current.code.len() <= CODE_LIMIT {
        lemma_tidy_end(c1, held);
        lemma_longer_boundary(c1p, c4, c1.offset());
    }
    let c5 = lower_for_step(c4, depth, c1.offset(), line)->Ok_0;
    lemma_for_step(c1p, c4, held1, depth, c1.offset(), line);
    lemma_longer_refl(c4);
    lemma_for_step(c4, c4, held1, depth, c1.offset(), line);
    lemma_longer_len(c4, c5);
    lemma_bracket(c1p, c5, held, s);
    let c6 = c5.patch_here(s);
    lemma_patch_here(c5, held, s);
    if c6.current.code.len() <= CODE_LIMIT {
        lemma_tidy_end(c6, held);
        lemma_tidy_end(c4, held1);
        lemma_longer_boundary(c4, c5, c4.offset());
    }
    lemma_loop_end(c1, c6, held, c5.offset(), c4.offset());
    lemma_longer_trans(c, c1, c6.close_loop(c5.offset(), c4.offset()));
}

pub proof fn lemma_exprs_sound(c: CompilerModel, exprs: Seq<Expr>, line: usize, held: Set<int>)
    requires
        tidy(c, held),
        lower_exprs(c, exprs, line) is Ok,
    ensures
        ok_expr(c, lower_exprs(c, exprs, line)->Ok_0, held),
    decreases exprs, 0nat,
{
    if exprs.len() == 0 {
        lemma_longer_refl(c);
    } else {
        lemma_exprs_sound(c, exprs.drop_last(), line, held);
        let c1 = lower_exprs(c, exprs.drop_last(), line)->Ok_0;
        lemma_expr_sound(c1, exprs.last(), line, held);
        lemma_longer_trans(c, c1, lower_expr(c1, exprs.last(), line)->Ok_0);
    }
}

pub proof fn lemma_pairs_sound(
    c: CompilerModel,
    pairs: Seq<(Expr, Expr)>,
    line: usize,
    held: Set<int>,
)
    requires
        tidy(c, held),
        lower_pairs(c, pairs, line) is Ok,
    ensures
        ok_expr(c, lower_pairs(c, pairs, line)->Ok_0, held),
    decreases pairs, 0nat,
{
    if pairs.len() == 0 {
        lemma_longer_refl(c);
    } else {
        lemma_pairs_sound(c, pairs.drop_last(), line, held);
        let c1 = lower_pairs(c, pairs.drop_last(), line)->Ok_0;
        lemma_expr_sound(c1, pairs.last().0, line, held);
        let c2 = lower_expr(c1, pairs.last().0, line)->Ok_0;
        lemma_expr_sound(c2, pairs.last().1, line, held);
        let c3 = lower_expr(c2, pairs.last().1, line)->Ok_0;
        lemma_longer_trans(c, c1, c2);
        lemma_longer_trans(c, c2, c3);
    }
}

/// The code of an expression is tidy, after tidy code.
pub proof fn lemma_expr_sound(c: CompilerModel, expr: Expr, line: usize, held: Set<int>)
    requires
        tidy(c, held),
        lower_expr(c, expr, line) is Ok,
    ensures
        ok_expr(c, lower_expr(c, expr, line)->Ok_0, held),
    decreases expr, 1nat,
{
    lemma_longer_refl(c);
    match expr {
        Expr::Number(n) => {
            lemma_then_constant(c, c, held, OpCode::PushConst, Data::Number(n.bits), line);
        },
        Expr::Str(s) => {
            lemma_then_constant(c, c, held, OpCode::PushConst, Data::Str(s@), line);
        },
        Expr::Bool(b) => {
            lemma_then_plain(
                c,
                c,
                held,
                if b {
                    OpCode::PushTrue
                } else {
                    OpCode::PushFalse
                },
                line,
            );
        },
        Expr::Variable(name) => {
            lemma_then_constant(c, c, held, OpCode::Load, Data::Str(name@), line);
        },
        Expr::Array(elems) => {
            lemma_exprs_sound(c, elems@, line, held);
            let c1 = lower_exprs(c, elems@, line)->Ok_0;
            lemma_then_u8(c, c1, held, OpCode::MakeArray, elems@.len() as u8, line);
        },
        Expr::Dict(pairs) => {
            lemma_pairs_sound(c, pairs@, line, held);
            let c1 = lower_pairs(c, pairs@, line)->Ok_0;
            lemma_then_u8(c, c1, held, OpCode::MakeDict, pairs@.len() as u8, line);
        },
        Expr::Index { object, index } => {
            lemma_expr_sound(c, *object, line, held);
            let c1 = lower_expr(c, *object, line)->Ok_0;
            lemma_expr_sound(c1, *index, line, held);
            let c2 = lower_expr(c1, *index, line)->Ok_0;
            lemma_longer_trans(c, c1, c2);
            lemma_then_plain(c, c2, held, OpCode::GetIndex, line);
        },
        Expr::Binary { left, op, right } => {
            lemma_expr_sound(c, *left, line, held);
            let c1 = lower_expr(c, *left, line)->Ok_0;
            lemma_expr_sound(c1, *right, line, held);
            let c2 = lower_expr(c1, *right, line)->Ok_0;
            lemma_longer_trans(c, c1, c2);
            assert(binary_opcode(op).operand_len() == 0);
            lemma_then_plain(c, c2, held, binary_opcode(op), line);
        },
        Expr::Logical { left, op, right } => {
            lemma_expr_sound(c, *left, line, held);
            let c1 = lower_expr(c, *left, line)->Ok_0;
            let jump = match op {
                LogicalOp::And => OpCode::PeekJumpIfFalse,
                LogicalOp::Or => OpCode::PeekJumpIfTrue,
            };
            let s = c1.offset() + 1;
            let held1 = held.insert(s);
            lemma_then_jump(c, c1, held, jump, line);
            let j = c1.emit_jump(jump, line);
            lemma_emit_plain(j, held1, OpCode::Pop, line);
            let p = j.emit_op(OpCode::Pop, line);
            lemma_longer_of_grows(j, p);
            lemma_longer_trans(c, j, p);
            lemma_expr_sound(p, *right, line, held1);
            let c3 = lower_expr(p, *right, line)->Ok_0;
            lemma_longer_trans(c, p, c3);
            lemma_longer_len(c, c1);
            lemma_bracket(c, c3, held, s);
        },
        Expr::Unary { op, operand } => {
            lemma_expr_sound(c, *operand, line, held);
            let c1 = lower_expr(c, *operand, line)->Ok_0;
            lemma_then_plain(
                c,
                c1,
                held,
                match op {
                    UnaryOp::Not => OpCode::Not,
                    UnaryOp::Neg => OpCode::Neg,
                },
                line,
            );
        },
        Expr::Call { name, arguments, line: at } => {
            lemma_exprs_sound(c, arguments@, at, held);
            let c1 = lower_exprs(c, arguments@, at)->Ok_0;
            lemma_then_call(c, c1, held, Data::Str(name@), arguments@.len() as u8, at);
        },
    }
}

pub proof fn lemma_block_sound(c: CompilerModel, stmts: Seq<Stmt>, held: Set<int>)
    requires
        tidy(c, held),
        lower_block(c, stmts) is Ok,
    ensures
        ok_stmt(c, lower_block(c, stmts)->Ok_0, held),
    decreases stmts, 0nat,
{
    if stmts.len() == 0 {
        lemma_longer_refl(c);
    } else {
        lemma_block_sound(c, stmts.drop_last(), held);
        let c1 = lower_block(c, stmts.drop_last())->Ok_0;
        lemma_stmt_sound(c1, stmts.last(), held);
        lemma_longer_trans(c, c1, lower_stmt(c1, stmts.last())->Ok_0);
    }
}

/// The code of a statement is tidy, after tidy code.
pub proof fn lemma_stmt_sound(c: CompilerModel, stmt: Stmt, held: Set<int>)
    requires
        tidy(c, held),
        lower_stmt(c, stmt) is Ok,
    ensures
        ok_stmt(c, lower_stmt(c, stmt)->Ok_0, held),
    decreases stmt, 1nat,
{
    lemma_longer_refl(c);
    match stmt {
        Stmt::Let { name, value, line } => {
            lemma_expr_sound(c, value, line, held);
            let c1 = lower_expr(c, value, line)->Ok_0;
            lemma_then_constant(c, c1, held, OpCode::Store, Data::Str(name@), line);
        },
        Stmt::Print { value, line } => {
            lemma_expr_sound(c, value, line, held);
            lemma_then_plain(c, lower_expr(c, value, line)->Ok_0, held, OpCode::Print, line);
        },
        Stmt::If { condition, then_branch, else_branch, line } => {
            lemma_expr_sound(c, condition, line, held);
            let c1 = lower_expr(c, condition, line)->Ok_0;
            let s1 = c1.offset() + 1;
            lemma_longer_len(c, c1);
            lemma_then_jump(c, c1, held, OpCode::JumpIfFalse, line);
            let j = c1.emit_jump(OpCode::JumpIfFalse, line);
            lemma_block_sound(j, then_branch@, held.insert(s1));
            let c2 = lower_block(j, then_branch@)->Ok_0;
            lemma_longer_trans(c, j, c2);
            lemma_longer_len(c, c2);
            match else_branch {
                Some(else_stmts) => {
                    let s2 = c2.offset() + 1;
                    lemma_then_jump(c, c2, held.insert(s1), OpCode::Jump, line);
                    let j2 = c2.emit_jump(OpCode::Jump, line);
                    assert(held.insert(s1).insert(s2) =~= held.insert(s2).insert(s1));
                    lemma_bracket(c, j2, held.insert(s2), s1);
                    let c3 = j2.patch_here(s1);
                    lemma_block_sound(c3, else_stmts@, held.insert(s2));
                    let c4 = lower_block(c3, else_stmts@)->Ok_0;
                    lemma_longer_trans(c, c3, c4);
                    lemma_bracket(c, c4, held, s2);
                },
                None => {
                    lemma_bracket(c, c2, held, s1);
                },
            }
        },
        Stmt::While { condition, body, line } => {
            lemma_push_loop(c, held);
            let c1 = c.push_loop();
            lemma_expr_sound(c1, condition, line, held);
            let c2 = lower_expr(c1, condition, line)->Ok_0;
            lemma_emit_jump(c2, held, OpCode::JumpIfFalse, line);
            let j = c2.emit_jump(OpCode::JumpIfFalse, line);
            lemma_block_sound(j, body@, held.insert(c2.offset() + 1));
            let c4 = lower_block(j, body@)->Ok_0;
            lemma_while_sound(c, c2, c4, held, line);
        },
        Stmt::For { variable, iterable, body, line } => {
            let depth = c.loops.len();
            lemma_expr_sound(c, iterable, line, held);
            let c0 = lower_expr(c, iterable, line)->Ok_0;
            lemma_for_init_tail(c, c0, held, depth, line);
            let c1 = lower_for_init(c, depth, iterable, line)->Ok_0;
            lemma_push_loop(c1, held);
            lemma_for_test(c1.push_loop(), held, depth, line);
            let c2 = lower_for_test(c1.push_loop(), depth, line)->Ok_0;
            let held1 = held.insert(c2.offset() + 1);
            lemma_emit_jump(c2, held, OpCode::JumpIfFalse, line);
            let j = c2.emit_jump(OpCode::JumpIfFalse, line);
            lemma_for_fetch(j, held1, depth, variable@, line);
            let c3 = lower_for_fetch(j, depth, variable@, line)->Ok_0;
            lemma_block_sound(c3, body@, held1);
            let c4 = lower_block(c3, body@)->Ok_0;
            lemma_longer_trans(j, c3, c4);
            lemma_for_sound(c, c1, c2, c4, held, depth, line);
        },
        Stmt::Function { .. } => {},
        Stmt::Return { value, line } => {
            match value {
                Some(e) => {
                    lemma_expr_sound(c, e, line, held);
                    lemma_then_plain(c, lower_expr(c, e, line)->Ok_0, held, OpCode::Return, line);
                },
                None => {
                    lemma_then_plain(c, c, held, OpCode::ReturnNone, line);
                },
            }
        },
        Stmt::Break { line } => {
            lemma_break_sound(c, held, line, false);
        },
        Stmt::Continue { line } => {
            lemma_break_sound(c, held, line, true);
        },
        Stmt::IndexAssign { object, index, value, line } => {
            lemma_then_constant(c, c, held, OpCode::Load, Data::Str(object@), line);
            let c1 = c.emit_with_constant(OpCode::Load, Data::Str(object@), line)->Ok_0;
            lemma_expr_sound(c1, index, line, held);
            let c2 = lower_expr(c1, index, line)->Ok_0;
            lemma_longer_trans(c, c1, c2);
            lemma_expr_sound(c2, value, line, held);
            let c3 = lower_expr(c2, value, line)->Ok_0;
            lemma_longer_trans(c, c2, c3);
            lemma_then_plain(c, c3, held, OpCode::SetIndex, line);
            lemma_then_constant(
                c,
                c3.emit_op(OpCode::SetIndex, line),
                held,
                OpCode::Store,
                Data::Str(object@),
                line,
            );
        },
        Stmt::Expression { expr, line } => {
            lemma_expr_sound(c, expr, line, held);
            lemma_then_plain(c, lower_expr(c, expr, line)->Ok_0, held, OpCode::Pop, line);
        },
    }
}

/// Whether the code of a chunk is within the limit, consists of whole
/// instructions, and every jump in it leads to the start of one of them.
pub open spec fn chunk_sound(chunk: ChunkModel) -> bool {
    chunk.code.len() <= CODE_LIMIT && jumps_valid(chunk.code)
}

/// Whether the jumps of every chunk of the table lead to its instructions.
pub open spec fn table_sound(table: TableModel) -> bool {
    forall|i: int| 0 <= i < table.len() ==> chunk_sound((#[trigger] table[i]).1)
}

/// An empty chunk is tidy.
pub proof fn lemma_empty_tidy(c: CompilerModel)
    requires
        c.current.code.len() == 0,
        c.loops.len() == 0,
    ensures
        tidy(c, Set::empty()),
{
    reveal(tidy_code);
    assert(boundary(c.current.code, 0));
    assert forall|p: int| !(#[trigger] waiting(c, Set::empty()).contains(p)) by {}
}

/// Code that is tidy, with no loop open and no placeholder held, is
/// sound once the instruction that ends it has been put at its end.
pub proof fn lemma_finish(c: CompilerModel, op: OpCode, line: usize)
    requires
        tidy(c, Set::empty()),
        c.loops.len() == 0,
        op.operand_len() == 0,
        c.current.code.len() < CODE_LIMIT,
    ensures
        chunk_sound(c.current.emit_op(op, line)),
{
    let d = c.emit_op(op, line);
    let a = c.current.code;
    let b = d.current.code;
    lemma_emit_plain(c, Set::empty(), op, line);
    if b.len() <= CODE_LIMIT {
        reveal(tidy_code);
        reveal(jumps_valid);
        let w = waiting(c, Set::empty());
        assert forall|p: int| !(#[trigger] w.contains(p)) by {}
        assert forall|at: int| boundary(b, at) && #[trigger] is_jump_at(b, at) implies settled(
            b,
            at,
        ) && target_at(b, at) < b.len() by {
            assert(settled(b, at));
            crate::opcode::lemma_decode_inverts_byte(op, op.byte());
            if at < a.len() {
                crate::layout::lemma_extend_boundary(a, b, at);
                assert(a[at] == b[at]);
                assert(is_jump_at(a, at));
                assert(settled(a, at));
                assert(a[at + 1] == b[at + 1]);
                assert(a[at + 2] == b[at + 2]);
            }
        }
    }
}

/// Defining a sound chunk keeps the table sound.
pub proof fn lemma_define_sound(table: TableModel, name: Seq<char>, chunk: ChunkModel)
    requires
        table_sound(table),
        chunk_sound(chunk),
    ensures
        table_sound(define_function(table, name, chunk)),
    decreases table.len(),
{
    let after = define_function(table, name, chunk);
    if table.len() == 0 {
    } else if table[0].0 == name {
        assert forall|i: int| 0 <= i < after.len() implies chunk_sound(
            (#[trigger] after[i]).1,
        ) by {
            if i > 0 {
                assert(after[i] == table[i]);
            }
        }
    } else {
        let rest = table.skip(1);
        assert(table_sound(rest)) by {
            assert forall|i: int| 0 <= i < rest.len() implies chunk_sound(
                (#[trigger] rest[i]).1,
            ) by {
                assert(rest[i] == table[i + 1]);
            }
        }
        lemma_define_sound(rest, name, chunk);
        let inner = define_function(rest, name, chunk);
        assert forall|i: int| 0 <= i < after.len() implies chunk_sound(
            (#[trigger] after[i]).1,
        ) by {
            if i == 0 {
                assert(after[0] == table[0]);
            } else {
                assert(after[i] == inner[i - 1]);
            }
        }
    }
}

pub proof fn lemma_params_sound(c: CompilerModel, params: Seq<String>, line: usize)
    requires
        tidy(c, Set::empty()),
        lower_params(c, params, line) is Ok,
    ensures
        ok_expr(c, lower_params(c, params, line)->Ok_0, Set::empty()),
    decreases params.len(),
{
    lemma_longer_refl(c);
    if params.len() > 0 {
        let held = Set::<int>::empty();
        lemma_then_constant(c, c, held, OpCode::Store, Data::Str(params.last()@), line);
        let c1 = c.emit_with_constant(OpCode::Store, Data::Str(params.last()@), line)->Ok_0;
        lemma_params_sound(c1, params.drop_last(), line);
        lemma_longer_trans(c, c1, lower_params(c1, params.drop_last(), line)->Ok_0);
    }
}

/// A function is compiled into a sound chunk.
pub proof fn lemma_function_sound(
    c: CompilerModel,
    name: Seq<char>,
    params: Seq<String>,
    body: Seq<Stmt>,
    line: usize,
)
    requires
        c.loops.len() == 0,
        table_sound(c.functions),
        lower_function(c, name, params, body, line) is Ok,
    ensures
        table_sound(lower_function(c, name, params, body, line)->Ok_0.functions),
        lower_function(c, name, params, body, line)->Ok_0.current == c.current,
        lower_function(c, name, params, body, line)->Ok_0.loops.len() == 0,
{
    let start = CompilerModel { current: empty_chunk(name, params.len() as usize), ..c };
    lemma_empty_tidy(start);
    lemma_params_sound(start, params, line);
    let c1 = lower_params(start, params, line)->Ok_0;
    lemma_block_sound(c1, body, Set::empty());
    let c2 = lower_block(c1, body)->Ok_0;
    lemma_longer_len(start, c1);
    lemma_longer_len(c1, c2);
    lemma_finish(c2, OpCode::ReturnNone, line);
    lemma_define_sound(c2.functions, name, c2.current.emit_op(OpCode::ReturnNone, line));
}

pub proof fn lemma_functions_sound(c: CompilerModel, stmts: Seq<Stmt>)
    requires
        c.loops.len() == 0,
        table_sound(c.functions),
        lower_functions(c, stmts) is Ok,
    ensures
        table_sound(lower_functions(c, stmts)->Ok_0.functions),
        lower_functions(c, stmts)->Ok_0.current == c.current,
        lower_functions(c, stmts)->Ok_0.loops.len() == 0,
    decreases stmts.len(),
{
    if stmts.len() > 0 {
        lemma_functions_sound(c, stmts.drop_last());
        let c1 = lower_functions(c, stmts.drop_last())->Ok_0;
        match stmts.last() {
            Stmt::Function { name, params, body, line } => {
                lemma_function_sound(c1, name@, params@, body@, line);
            },
            _ => {},
        }
    }
}

/// Compiling a function keeps every name of the table single.
pub proof fn lemma_function_once(
    c: CompilerModel,
    name: Seq<char>,
    params: Seq<String>,
    body: Seq<Stmt>,
    line: usize,
)
    requires
        c.loops.len() == 0,
        names_once(c.functions),
        lower_function(c, name, params, body, line) is Ok,
    ensures
        names_once(lower_function(c, name, params, body, line)->Ok_0.functions),
{
    let start = CompilerModel { current: empty_chunk(name, params.len() as usize), ..c };
    lemma_empty_tidy(start);
    lemma_params_sound(start, params, line);
    let c1 = lower_params(start, params, line)->Ok_0;
    lemma_block_sound(c1, body, Set::empty());
    let c2 = lower_block(c1, body)->Ok_0;
    lemma_longer_len(start, c1);
    lemma_longer_len(c1, c2);
    crate::lowering::lemma_define_once(
        c2.functions,
        name,
        c2.current.emit_op(OpCode::ReturnNone, line),
    );
}

/// In the table of a compiled program no name occurs twice: of two
/// functions of one name the later has replaced the earlier.
pub proof fn lemma_functions_once(c: CompilerModel, stmts: Seq<Stmt>)
    requires
        c.loops.len() == 0,
        table_sound(c.functions),
        names_once(c.functions),
        lower_functions(c, stmts) is Ok,
    ensures
        names_once(lower_functions(c, stmts)->Ok_0.functions),
    decreases stmts.len(),
{
    if stmts.len() > 0 {
        lemma_functions_once(c, stmts.drop_last());
        lemma_functions_sound(c, stmts.drop_last());
        let c1 = lower_functions(c, stmts.drop_last())->Ok_0;
        match stmts.last() {
            Stmt::Function { name, params, body, line } => {
                lemma_function_once(c1, name@, params@, body@, line);
            },
            _ => {},
        }
    }
}

/// In the table of a compiled program no name occurs twice.
pub proof fn lemma_program_once(program: Seq<Stmt>)
    requires
        lower_program(program) is Ok,
    ensures
        names_once(lower_program(program)->Ok_0.1),
{
    let c0 = initial();
    lemma_functions_once(c0, program);
    lemma_functions_sound(c0, program);
    let c1 = lower_functions(c0, program)->Ok_0;
    lemma_empty_tidy(c1);
    lemma_block_sound(c1, program, Set::empty());
    lemma_longer_len(c1, lower_block(c1, program)->Ok_0);
}

/// In every chunk of a compiled program the code is within the limit of
/// 65535 bytes and consists of whole instructions, and every jump leads
/// to the start of one of them.
pub proof fn lemma_program_sound(program: Seq<Stmt>)
    requires
        lower_program(program) is Ok,
    ensures
        chunk_sound(lower_program(program)->Ok_0.0),
        table_sound(lower_program(program)->Ok_0.1),
{
    let c0 = initial();
    lemma_functions_sound(c0, program);
    let c1 = lower_functions(c0, program)->Ok_0;
    lemma_empty_tidy(c1);
    lemma_block_sound(c1, program, Set::empty());
    let c2 = lower_block(c1, program)->Ok_0;
    lemma_longer_len(c1, c2);
    lemma_finish(c2, OpCode::Halt, 0);
}

/// Whether a `break` or a `continue` stands among the statements outside
/// any loop.
pub open spec fn escapes_block(stmts: Seq<Stmt>) -> bool
    decreases stmts, 0nat,
{
    if stmts.len() == 0 {
        false
    } else {
        escapes_block(stmts.drop_last()) || escapes(stmts.last())
    }
}

/// Whether the statement is a `break` or a `continue`, or holds one in a
/// branch, outside any loop.  What stands in a loop belongs to the loop,
/// and a function within a block is not compiled.
pub open spec fn escapes(stmt: Stmt) -> bool
    decreases stmt, 1nat,
{
    match stmt {
        Stmt::Break { .. } => true,
        Stmt::Continue { .. } => true,
        Stmt::If { condition, then_branch, else_branch, line } => escapes_block(then_branch@)
            || (match else_branch {
            Some(e) => escapes_block(e@),
            None => false,
        }),
        _ => false,
    }
}

pub proof fn lemma_escape_block(c: CompilerModel, stmts: Seq<Stmt>, held: Set<int>)
    requires
        tidy(c, held),
        c.loops.len() == 0,
        escapes_block(stmts),
    ensures
        lower_block(c, stmts) is Err,
    decreases stmts, 0nat,
{
    if stmts.len() > 0 {
        if lower_block(c, stmts.drop_last()) is Ok {
            lemma_block_sound(c, stmts.drop_last(), held);
            let c1 = lower_block(c, stmts.drop_last())->Ok_0;
            lemma_longer_len(c, c1);
            if escapes_block(stmts.drop_last()) {
                lemma_escape_block(c, stmts.drop_last(), held);
            } else {
                lemma_escape_stmt(c1, stmts.last(), held);
            }
        }
    }
}

/// A `break` or `continue` outside any loop makes the compilation fail.
pub proof fn lemma_escape_stmt(c: CompilerModel, stmt: Stmt, held: Set<int>)
    requires
        tidy(c, held),
        c.loops.len() == 0,
        escapes(stmt),
    ensures
        lower_stmt(c, stmt) is Err,
    decreases stmt, 1nat,
{
    match stmt {
        Stmt::If { condition, then_branch, else_branch, line } => {
            if lower_expr(c, condition, line) is Ok {
                lemma_expr_sound(c, condition, line, held);
                let c1 = lower_expr(c, condition, line)->Ok_0;
                let s1 = c1.offset() + 1;
                lemma_longer_len(c, c1);
                lemma_then_jump(c, c1, held, OpCode::JumpIfFalse, line);
                let j = c1.emit_jump(OpCode::JumpIfFalse, line);
                if escapes_block(then_branch@) {
                    lemma_escape_block(j, then_branch@, held.insert(s1));
                } else if lower_block(j, then_branch@) is Ok {
                    lemma_block_sound(j, then_branch@, held.insert(s1));
                    let c2 = lower_block(j, then_branch@)->Ok_0;
                    lemma_longer_trans(c, j, c2);
                    lemma_longer_len(c, c2);
                    match else_branch {
                        Some(else_stmts) => {
                            let s2 = c2.offset() + 1;
                            lemma_then_jump(c, c2, held.insert(s1), OpCode::Jump, line);
                            let j2 = c2.emit_jump(OpCode::Jump, line);
                            assert(held.insert(s1).insert(s2) =~= held.insert(s2).insert(s1));
                            lemma_bracket(c, j2, held.insert(s2), s1);
                            let c3 = j2.patch_here(s1);
                            lemma_longer_len(c, c3);
                            lemma_escape_block(c3, else_stmts@, held.insert(s2));
                        },
                        None => {},
                    }
                }
            }
        },
        _ => {},
    }
}

/// Whether a `break` or a `continue` stands outside any loop in the
/// program: among its statements, or in one of its functions.
pub open spec fn escapes_program(program: Seq<Stmt>) -> bool {
    escapes_block(program) || exists|i: int|
        0 <= i < program.len() && (match #[trigger] program[i] {
            Stmt::Function { name, params, body, line } => escapes_block(body@),
            _ => false,
        })
}

proof fn lemma_escape_functions(c: CompilerModel, stmts: Seq<Stmt>, i: int)
    requires
        c.loops.len() == 0,
        table_sound(c.functions),
        0 <= i < stmts.len(),
        match stmts[i] {
            Stmt::Function { name, params, body, line } => escapes_block(body@),
            _ => false,
        },
    ensures
        lower_functions(c, stmts) is Err,
    decreases stmts.len(),
{
    if lower_functions(c, stmts.drop_last()) is Ok {
        if i < stmts.len() - 1 {
            assert(stmts.drop_last()[i] == stmts[i]);
            lemma_escape_functions(c, stmts.drop_last(), i);
        } else {
            lemma_functions_sound(c, stmts.drop_last());
            let c1 = lower_functions(c, stmts.drop_last())->Ok_0;
            match stmts.last() {
                Stmt::Function { name, params, body, line } => {
                    let start = CompilerModel {
                        current: empty_chunk(name@, params@.len() as usize),
                        ..c1
                    };
                    lemma_empty_tidy(start);
                    if lower_params(start, params@, line) is Ok {
                        lemma_params_sound(start, params@, line);
                        let c2 = lower_params(start, params@, line)->Ok_0;
                        lemma_longer_len(start, c2);
                        lemma_escape_block(c2, body@, Set::empty());
                    }
                },
                _ => {},
            }
        }
    }
}

/// A program with a `break` or a `continue` outside any loop is not compiled.
pub proof fn lemma_escape_program(program: Seq<Stmt>)
    requires
        escapes_program(program),
    ensures
        lower_program(program) is Err,
{
    let c0 = initial();
    if lower_functions(c0, program) is Ok {
        if escapes_block(program) {
            lemma_functions_sound(c0, program);
            let c1 = lower_functions(c0, program)->Ok_0;
            lemma_empty_tidy(c1);
            lemma_escape_block(c1, program, Set::empty());
        } else {
            let i = choose|i: int|
                0 <= i < program.len() && (match #[trigger] program[i] {
                    Stmt::Function { name, params, body, line } => escapes_block(body@),
                    _ => false,
                });
            lemma_escape_functions(c0, program, i);
        }
    }
}

} // verus!

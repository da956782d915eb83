//! Every program that compiles is compiled into code in which each
//! instruction finds the stack at one height, by whatever way it is
//! reached, and each statement leaves the stack as high as it found it.

use vstd::prelude::*;
use crate::ast::{Expr, LogicalOp, Stmt, UnaryOp};
use crate::even::{even, kept, lemma_even_close, lemma_even_push_loop, lemma_even_record, raised};
use crate::frames::{
    lemma_bracket, lemma_for_fetch, lemma_for_step, lemma_for_test, lemma_longer_boundary,
    lemma_longer_len, lemma_longer_of_grows, lemma_longer_refl, lemma_longer_trans,
    lemma_then_jump, lemma_tidy_end, ok_expr, ok_stmt,
};
use crate::lowering::{
    CompilerModel, ONE_BITS, binary_opcode, index_name, iter_name, lower_block, lower_expr,
    lower_exprs, lower_for_fetch, lower_for_init, lower_for_step, lower_for_test, lower_pairs,
    lower_stmt,
};
use crate::opcode::OpCode;
use crate::rise::{
    index_of, lemma_rise_call, lemma_rise_constant, lemma_rise_jump, lemma_rise_jump_to,
    lemma_rise_patch, lemma_rise_plain, lemma_rise_u8, lemma_rises_refl, lemma_rises_trans,
    lemma_site_kept, rises,
};
use crate::shape::{CODE_LIMIT, tidy};
use crate::sound::{
    lemma_block_sound, lemma_expr_sound, lemma_exprs_sound, lemma_for_init_tail, lemma_pairs_sound,
    lemma_stmt_sound,
};
use crate::steps::{
    lemma_close_loop_frame, lemma_emit_call, lemma_emit_constant, lemma_emit_jump,
    lemma_emit_jump_to, lemma_emit_plain, lemma_patch_here, lemma_push_loop, record,
};
use crate::value::Data;

verus! {

/// The code of expressions one after another leaves a value each.
pub proof fn lemma_exprs_rise(
    c: CompilerModel,
    exprs: Seq<Expr>,
    line: usize,
    held: Set<int>,
    hs: Seq<int>,
    main: bool,
) -> (later: Seq<int>)
    requires
        tidy(c, held),
        even(c, hs, held, main),
        lower_exprs(c, exprs, line) is Ok,
    ensures
        rises(c, lower_exprs(c, exprs, line)->Ok_0, hs, later, held, exprs.len() as int, main),
    decreases exprs, 0nat,
{
    if exprs.len() == 0 {
        lemma_rises_refl(c, hs, held, main);
        hs
    } else {
        let mid = lemma_exprs_rise(c, exprs.drop_last(), line, held, hs, main);
        let c1 = lower_exprs(c, exprs.drop_last(), line)->Ok_0;
        lemma_exprs_sound(c, exprs.drop_last(), line, held);
        let later = lemma_expr_rise(c1, exprs.last(), line, held, mid, main);
        let c2 = lower_expr(c1, exprs.last(), line)->Ok_0;
        lemma_expr_sound(c1, exprs.last(), line, held);
        lemma_longer_len(c, c1);
        lemma_longer_len(c1, c2);
        lemma_rises_trans(c, c1, c2, hs, mid, later, held, exprs.len() - 1, 1, main);
        later
    }
}

/// The code of the entries of a dictionary literal leaves two values each.
pub proof fn lemma_pairs_rise(
    c: CompilerModel,
    pairs: Seq<(Expr, Expr)>,
    line: usize,
    held: Set<int>,
    hs: Seq<int>,
    main: bool,
) -> (later: Seq<int>)
    requires
        tidy(c, held),
        even(c, hs, held, main),
        lower_pairs(c, pairs, line) is Ok,
    ensures
        rises(
            c,
            lower_pairs(c, pairs, line)->Ok_0,
            hs,
            later,
            held,
            2 * (pairs.len() as int),
            main,
        ),
    decreases pairs, 0nat,
{
    if pairs.len() == 0 {
        lemma_rises_refl(c, hs, held, main);
        hs
    } else {
        let h1 = lemma_pairs_rise(c, pairs.drop_last(), line, held, hs, main);
        let c1 = lower_pairs(c, pairs.drop_last(), line)->Ok_0;
        lemma_pairs_sound(c, pairs.drop_last(), line, held);
        let h2 = lemma_expr_rise(c1, pairs.last().0, line, held, h1, main);
        let c2 = lower_expr(c1, pairs.last().0, line)->Ok_0;
        lemma_expr_sound(c1, pairs.last().0, line, held);
        let h3 = lemma_expr_rise(c2, pairs.last().1, line, held, h2, main);
        let c3 = lower_expr(c2, pairs.last().1, line)->Ok_0;
        lemma_expr_sound(c2, pairs.last().1, line, held);
        lemma_longer_len(c, c1);
        lemma_longer_len(c1, c2);
        lemma_longer_len(c2, c3);
        lemma_rises_trans(c, c1, c2, hs, h1, h2, held, 2 * (pairs.len() - 1), 1, main);
        lemma_rises_trans(c, c2, c3, hs, h2, h3, held, 2 * (pairs.len() - 1) + 1, 1, main);
        h3
    }
}

/// The code of two expressions and an instruction that takes their
/// values and leaves one.
proof fn lemma_two_rise(
    c: CompilerModel,
    left: Expr,
    right: Expr,
    op: OpCode,
    line: usize,
    held: Set<int>,
    hs: Seq<int>,
    whole: Expr,
    main: bool,
) -> (later: Seq<int>)
    requires
        tidy(c, held),
        even(c, hs, held, main),
        lower_expr(c, left, line) is Ok,
        lower_expr(lower_expr(c, left, line)->Ok_0, right, line) is Ok,
        op.operand_len() == 0,
        op != OpCode::Return,
        op != OpCode::Halt,
        crate::rise::change(op, 0, 0) == -1,
        decreases_to!(whole => left),
        decreases_to!(whole => right),
    ensures
        rises(
            c,
            lower_expr(lower_expr(c, left, line)->Ok_0, right, line)->Ok_0.emit_op(op, line),
            hs,
            later,
            held,
            1,
            main,
        ),
    decreases whole, 0nat,
{
    let h1 = lemma_expr_rise(c, left, line, held, hs, main);
    let c1 = lower_expr(c, left, line)->Ok_0;
    lemma_expr_sound(c, left, line, held);
    let h2 = lemma_expr_rise(c1, right, line, held, h1, main);
    let c2 = lower_expr(c1, right, line)->Ok_0;
    lemma_expr_sound(c1, right, line, held);
    lemma_longer_len(c, c1);
    lemma_longer_len(c1, c2);
    lemma_rises_trans(c, c1, c2, hs, h1, h2, held, 1, 1, main);
    lemma_rise_plain(c, c2, hs, h2, held, op, line, 2, main);
    raised(h2, op, 0, 0)
}

/// The code of `and` and `or`: the value of the left side stays when it
/// decides, and the value of the right side takes its place otherwise.
proof fn lemma_logical_rise(
    c: CompilerModel,
    left: Expr,
    jump: OpCode,
    right: Expr,
    line: usize,
    held: Set<int>,
    hs: Seq<int>,
    whole: Expr,
    main: bool,
) -> (later: Seq<int>)
    requires
        tidy(c, held),
        even(c, hs, held, main),
        jump == OpCode::PeekJumpIfFalse || jump == OpCode::PeekJumpIfTrue,
        lower_expr(c, left, line) is Ok,
        lower_expr(
            lower_expr(c, left, line)->Ok_0.emit_jump(jump, line).emit_op(OpCode::Pop, line),
            right,
            line,
        ) is Ok,
        decreases_to!(whole => left),
        decreases_to!(whole => right),
    ensures
        rises(
            c,
            lower_expr(
                lower_expr(c, left, line)->Ok_0.emit_jump(jump, line).emit_op(OpCode::Pop, line),
                right,
                line,
            )->Ok_0.patch_here(lower_expr(c, left, line)->Ok_0.offset() + 1),
            hs,
            later,
            held,
            1,
            main,
        ),
    decreases whole, 0nat,
{
    let h1 = lemma_expr_rise(c, left, line, held, hs, main);
    let c1 = lower_expr(c, left, line)->Ok_0;
    lemma_expr_sound(c, left, line, held);
    lemma_longer_len(c, c1);
    let s = c1.offset() + 1;
    let held1 = held.insert(s);
    let j = c1.emit_jump(jump, line);
    lemma_rise_jump(c, c1, hs, h1, held, jump, line, 1, main);
    lemma_emit_jump(c1, held, jump, line);
    let hj = raised(h1, jump, 0, 0);
    let p = j.emit_op(OpCode::Pop, line);
    lemma_rise_plain(c, j, hs, hj, held1, OpCode::Pop, line, 1, main);
    lemma_emit_plain(j, held1, OpCode::Pop, line);
    let hp = raised(hj, OpCode::Pop, 0, 0);
    let h3 = lemma_expr_rise(p, right, line, held1, hp, main);
    let c3 = lower_expr(p, right, line)->Ok_0;
    lemma_expr_sound(p, right, line, held1);
    lemma_longer_len(p, c3);
    lemma_rises_trans(c, p, c3, hs, hp, h3, held1, 0, 1, main);
    if c3.offset() <= CODE_LIMIT {
        lemma_longer_of_grows(j, p);
        lemma_longer_trans(j, p, c3);
        assert(kept(hj, h3));
        lemma_site_kept(j, c3, hj, h3, jump, s - 1);
    }
    lemma_rise_patch(c, c3, hs, h3, held, s, 1, main);
    h3
}

/// The code of an expression leaves one value more on the stack than it
/// found there.
pub proof fn lemma_expr_rise(
    c: CompilerModel,
    expr: Expr,
    line: usize,
    held: Set<int>,
    hs: Seq<int>,
    main: bool,
) -> (later: Seq<int>)
    requires
        tidy(c, held),
        even(c, hs, held, main),
        lower_expr(c, expr, line) is Ok,
    ensures
        rises(c, lower_expr(c, expr, line)->Ok_0, hs, later, held, 1, main),
    decreases expr, 1nat,
{
    lemma_rises_refl(c, hs, held, main);
    match expr {
        Expr::Number(n) => {
            let v = Data::Number(n.bits);
            lemma_rise_constant(c, c, hs, hs, held, OpCode::PushConst, v, line, 0, main);
            raised(hs, OpCode::PushConst, index_of(c, v), 0)
        },
        Expr::Str(s) => {
            let v = Data::Str(s@);
            lemma_rise_constant(c, c, hs, hs, held, OpCode::PushConst, v, line, 0, main);
            raised(hs, OpCode::PushConst, index_of(c, v), 0)
        },
        Expr::Bool(b) => {
            let op = if b {
                OpCode::PushTrue
            } else {
                OpCode::PushFalse
            };
            lemma_rise_plain(c, c, hs, hs, held, op, line, 0, main);
            raised(hs, op, 0, 0)
        },
        Expr::Variable(name) => {
            let v = Data::Str(name@);
            lemma_rise_constant(c, c, hs, hs, held, OpCode::Load, v, line, 0, main);
            raised(hs, OpCode::Load, index_of(c, v), 0)
        },
        Expr::Array(elems) => {
            let mid = lemma_exprs_rise(c, elems@, line, held, hs, main);
            let c1 = lower_exprs(c, elems@, line)->Ok_0;
            lemma_exprs_sound(c, elems@, line, held);
            lemma_longer_len(c, c1);
            let n = elems@.len() as u8;
            let by = elems@.len() as int;
            lemma_rise_u8(c, c1, hs, mid, held, OpCode::MakeArray, n, line, by, main);
            raised(mid, OpCode::MakeArray, n, 0)
        },
        Expr::Dict(pairs) => {
            let mid = lemma_pairs_rise(c, pairs@, line, held, hs, main);
            let c1 = lower_pairs(c, pairs@, line)->Ok_0;
            lemma_pairs_sound(c, pairs@, line, held);
            lemma_longer_len(c, c1);
            let n = pairs@.len() as u8;
            let by = 2 * (pairs@.len() as int);
            lemma_rise_u8(c, c1, hs, mid, held, OpCode::MakeDict, n, line, by, main);
            raised(mid, OpCode::MakeDict, n, 0)
        },
        Expr::Index { object, index } => {
            lemma_two_rise(c, *object, *index, OpCode::GetIndex, line, held, hs, expr, main)
        },
        Expr::Binary { left, op, right } => {
            lemma_two_rise(c, *left, *right, binary_opcode(op), line, held, hs, expr, main)
        },
        Expr::Logical { left, op, right } => {
            let jump = match op {
                LogicalOp::And => OpCode::PeekJumpIfFalse,
                LogicalOp::Or => OpCode::PeekJumpIfTrue,
            };
            lemma_logical_rise(c, *left, jump, *right, line, held, hs, expr, main)
        },
        Expr::Unary { op, operand } => {
            let mid = lemma_expr_rise(c, *operand, line, held, hs, main);
            let c1 = lower_expr(c, *operand, line)->Ok_0;
            lemma_expr_sound(c, *operand, line, held);
            lemma_longer_len(c, c1);
            let code = match op {
                UnaryOp::Not => OpCode::Not,
                UnaryOp::Neg => OpCode::Neg,
            };
            lemma_rise_plain(c, c1, hs, mid, held, code, line, 1, main);
            raised(mid, code, 0, 0)
        },
        Expr::Call { name, arguments, line: at } => {
            let mid = lemma_exprs_rise(c, arguments@, at, held, hs, main);
            let c1 = lower_exprs(c, arguments@, at)->Ok_0;
            lemma_exprs_sound(c, arguments@, at, held);
            lemma_longer_len(c, c1);
            let n = arguments@.len() as u8;
            let by = arguments@.len() as int;
            lemma_rise_call(c, c1, hs, mid, held, Data::Str(name@), n, at, by, main);
            raised(mid, OpCode::Call, index_of(c1, Data::Str(name@)), n)
        },
    }
}

/// The start of a `for` loop, after the code of what it walks: the value
/// and the position 0 are stored, and nothing stays on the stack.
proof fn lemma_for_init_rise(
    c: CompilerModel,
    e: CompilerModel,
    hs: Seq<int>,
    mid: Seq<int>,
    held: Set<int>,
    depth: nat,
    line: usize,
    main: bool,
) -> (later: Seq<int>)
    requires
        tidy(e, held),
        rises(c, e, hs, mid, held, 1, main),
        c.offset() <= e.offset(),
        e.emit_with_constant(OpCode::Store, Data::Str(iter_name(depth)), line) is Ok,
        e.emit_with_constant(OpCode::Store, Data::Str(iter_name(depth)), line)->Ok_0.emit_with_constant(
            OpCode::PushConst,
            Data::Number(0),
            line,
        ) is Ok,
        e.emit_with_constant(OpCode::Store, Data::Str(iter_name(depth)), line)->Ok_0.emit_with_constant(
            OpCode::PushConst,
            Data::Number(0),
            line,
        )->Ok_0.emit_with_constant(OpCode::Store, Data::Str(index_name(depth)), line) is Ok,
    ensures
        rises(
            c,
            e.emit_with_constant(OpCode::Store, Data::Str(iter_name(depth)), line)->Ok_0.emit_with_constant(
                OpCode::PushConst,
                Data::Number(0),
                line,
            )->Ok_0.emit_with_constant(OpCode::Store, Data::Str(index_name(depth)), line)->Ok_0,
            hs,
            later,
            held,
            0,
            main,
        ),
{
    let v1 = Data::Str(iter_name(depth));
    let v2 = Data::Number(0);
    let v3 = Data::Str(index_name(depth));
    let e1 = e.emit_with_constant(OpCode::Store, v1, line)->Ok_0;
    lemma_rise_constant(c, e, hs, mid, held, OpCode::Store, v1, line, 1, main);
    lemma_emit_constant(e, held, OpCode::Store, v1, line);
    let h1 = raised(mid, OpCode::Store, index_of(e, v1), 0);
    let e2 = e1.emit_with_constant(OpCode::PushConst, v2, line)->Ok_0;
    lemma_rise_constant(c, e1, hs, h1, held, OpCode::PushConst, v2, line, 0, main);
    lemma_emit_constant(e1, held, OpCode::PushConst, v2, line);
    let h2 = raised(h1, OpCode::PushConst, index_of(e1, v2), 0);
    lemma_rise_constant(c, e2, hs, h2, held, OpCode::Store, v3, line, 1, main);
    raised(h2, OpCode::Store, index_of(e2, v3), 0)
}

/// The test of a `for` loop leaves its result on the stack.
proof fn lemma_for_test_rise(
    c: CompilerModel,
    hs: Seq<int>,
    held: Set<int>,
    depth: nat,
    line: usize,
    main: bool,
) -> (later: Seq<int>)
    requires
        tidy(c, held),
        even(c, hs, held, main),
        lower_for_test(c, depth, line) is Ok,
    ensures
        rises(c, lower_for_test(c, depth, line)->Ok_0, hs, later, held, 1, main),
{
    let v1 = Data::Str(index_name(depth));
    let v2 = Data::Str(iter_name(depth));
    let v3 = Data::Str("length"@);
    lemma_rises_refl(c, hs, held, main);
    let c1 = c.emit_with_constant(OpCode::Load, v1, line)->Ok_0;
    lemma_rise_constant(c, c, hs, hs, held, OpCode::Load, v1, line, 0, main);
    lemma_emit_constant(c, held, OpCode::Load, v1, line);
    let h1 = raised(hs, OpCode::Load, index_of(c, v1), 0);
    let c2 = c1.emit_with_constant(OpCode::Load, v2, line)->Ok_0;
    lemma_rise_constant(c, c1, hs, h1, held, OpCode::Load, v2, line, 1, main);
    lemma_emit_constant(c1, held, OpCode::Load, v2, line);
    let h2 = raised(h1, OpCode::Load, index_of(c1, v2), 0);
    let c3 = c2.emit_with_constant(OpCode::Call, v3, line)->Ok_0.emit_byte(1, line);
    lemma_rise_call(c, c2, hs, h2, held, v3, 1, line, 2, main);
    lemma_emit_call(c2, held, v3, 1, line);
    let h3 = raised(h2, OpCode::Call, index_of(c2, v3), 1);
    lemma_rise_plain(c, c3, hs, h3, held, OpCode::Lt, line, 2, main);
    raised(h3, OpCode::Lt, 0, 0)
}

/// The start of each round of a `for` loop leaves nothing on the stack.
proof fn lemma_for_fetch_rise(
    c: CompilerModel,
    e: CompilerModel,
    hs: Seq<int>,
    mid: Seq<int>,
    held: Set<int>,
    depth: nat,
    variable: Seq<char>,
    line: usize,
    main: bool,
) -> (later: Seq<int>)
    requires
        tidy(e, held),
        rises(c, e, hs, mid, held, 0, main),
        c.offset() <= e.offset(),
        lower_for_fetch(e, depth, variable, line) is Ok,
    ensures
        rises(c, lower_for_fetch(e, depth, variable, line)->Ok_0, hs, later, held, 0, main),
{
    let v1 = Data::Str(iter_name(depth));
    let v2 = Data::Str(index_name(depth));
    let v3 = Data::Str(variable);
    let e1 = e.emit_with_constant(OpCode::Load, v1, line)->Ok_0;
    lemma_rise_constant(c, e, hs, mid, held, OpCode::Load, v1, line, 0, main);
    lemma_emit_constant(e, held, OpCode::Load, v1, line);
    let h1 = raised(mid, OpCode::Load, index_of(e, v1), 0);
    let e2 = e1.emit_with_constant(OpCode::Load, v2, line)->Ok_0;
    lemma_rise_constant(c, e1, hs, h1, held, OpCode::Load, v2, line, 1, main);
    lemma_emit_constant(e1, held, OpCode::Load, v2, line);
    let h2 = raised(h1, OpCode::Load, index_of(e1, v2), 0);
    let e3 = e2.emit_op(OpCode::GetIndex, line);
    lemma_rise_plain(c, e2, hs, h2, held, OpCode::GetIndex, line, 2, main);
    lemma_emit_plain(e2, held, OpCode::GetIndex, line);
    let h3 = raised(h2, OpCode::GetIndex, 0, 0);
    lemma_rise_constant(c, e3, hs, h3, held, OpCode::Store, v3, line, 1, main);
    raised(h3, OpCode::Store, index_of(e3, v3), 0)
}

/// The end of each round of a `for` loop leaves nothing on the stack, and
/// starts over where nothing was on it.
proof fn lemma_for_step_rise(
    c: CompilerModel,
    e: CompilerModel,
    hs: Seq<int>,
    mid: Seq<int>,
    held: Set<int>,
    depth: nat,
    start: int,
    line: usize,
    main: bool,
) -> (later: Seq<int>)
    requires
        tidy(e, held),
        rises(c, e, hs, mid, held, 0, main),
        c.offset() <= e.offset(),
        lower_for_step(e, depth, start, line) is Ok,
        0 <= start <= e.offset(),
        e.offset() <= CODE_LIMIT ==> mid[start] == hs[c.offset()],
    ensures
        rises(c, lower_for_step(e, depth, start, line)->Ok_0, hs, later, held, 0, main),
        kept(mid, later),
{
    let v1 = Data::Str(index_name(depth));
    let v2 = Data::Number(ONE_BITS);
    let e1 = e.emit_with_constant(OpCode::Load, v1, line)->Ok_0;
    lemma_rise_constant(c, e, hs, mid, held, OpCode::Load, v1, line, 0, main);
    lemma_emit_constant(e, held, OpCode::Load, v1, line);
    let h1 = raised(mid, OpCode::Load, index_of(e, v1), 0);
    let e2 = e1.emit_with_constant(OpCode::PushConst, v2, line)->Ok_0;
    lemma_rise_constant(c, e1, hs, h1, held, OpCode::PushConst, v2, line, 1, main);
    lemma_emit_constant(e1, held, OpCode::PushConst, v2, line);
    let h2 = raised(h1, OpCode::PushConst, index_of(e1, v2), 0);
    let e3 = e2.emit_op(OpCode::Add, line);
    lemma_rise_plain(c, e2, hs, h2, held, OpCode::Add, line, 2, main);
    lemma_emit_plain(e2, held, OpCode::Add, line);
    let h3 = raised(h2, OpCode::Add, 0, 0);
    let e4 = e3.emit_with_constant(OpCode::Store, v1, line)->Ok_0;
    lemma_rise_constant(c, e3, hs, h3, held, OpCode::Store, v1, line, 1, main);
    lemma_emit_constant(e3, held, OpCode::Store, v1, line);
    let h4 = raised(h3, OpCode::Store, index_of(e3, v1), 0);
    assert(kept(mid, h4));
    if e4.offset() < CODE_LIMIT {
        assert(h4[start] == mid[start]);
    }
    lemma_rise_jump_to(c, e4, hs, h4, held, start, line, 0, main);
    raised(h4, OpCode::Jump, 0, 0)
}

/// Whether a `return` stands among the statements, outside any function.
pub open spec fn leaves_block(stmts: Seq<Stmt>) -> bool
    decreases stmts, 0nat,
{
    if stmts.len() == 0 {
        false
    } else {
        leaves_block(stmts.drop_last()) || leaves(stmts.last())
    }
}

/// Whether the statement is a `return`, or holds one in a branch or in
/// the body of a loop.  A function within a block is not compiled.
pub open spec fn leaves(stmt: Stmt) -> bool
    decreases stmt, 1nat,
{
    match stmt {
        Stmt::Return { .. } => true,
        Stmt::If { condition, then_branch, else_branch, line } => leaves_block(then_branch@)
            || (match else_branch {
            Some(e) => leaves_block(e@),
            None => false,
        }),
        Stmt::While { condition, body, line } => leaves_block(body@),
        Stmt::For { variable, iterable, body, line } => leaves_block(body@),
        _ => false,
    }
}

/// A `break` or `continue` is a jump between statements.
proof fn lemma_break_rise(
    c: CompilerModel,
    held: Set<int>,
    line: usize,
    is_continue: bool,
    hs: Seq<int>,
    main: bool,
)
    requires
        tidy(c, held),
        even(c, hs, held, main),
        c.loops.len() > 0,
        c.offset() <= CODE_LIMIT ==> hs[c.offset()] == 0,
    ensures
        rises(
            c,
            record(c.emit_jump(OpCode::Jump, line), (c.offset() + 1) as usize, is_continue),
            hs,
            raised(hs, OpCode::Jump, 0, 0),
            held,
            0,
            main,
        ),
{
    let j = c.emit_jump(OpCode::Jump, line);
    let site = (c.offset() + 1) as usize;
    let hj = raised(hs, OpCode::Jump, 0, 0);
    lemma_rises_refl(c, hs, held, main);
    lemma_rise_jump(c, c, hs, hs, held, OpCode::Jump, line, 0, main);
    lemma_emit_jump(c, held, OpCode::Jump, line);
    if j.offset() <= CODE_LIMIT {
        assert(site as int == c.offset() + 1);
        crate::opcode::lemma_decode_inverts_byte(OpCode::Jump, OpCode::Jump.byte());
    }
    lemma_even_record(j, hj, held, site, is_continue, main);
}

/// The end of a `while` loop, given the heights of its test and its body.
proof fn lemma_while_rise(
    c: CompilerModel,
    c2: CompilerModel,
    c4: CompilerModel,
    held: Set<int>,
    line: usize,
    hs: Seq<int>,
    h2: Seq<int>,
    h4: Seq<int>,
    main: bool,
)
    requires
        tidy(c, held),
        c.offset() <= CODE_LIMIT ==> hs[c.offset()] == 0,
        ok_expr(c.push_loop(), c2, held),
        rises(c.push_loop(), c2, hs, h2, held, 1, main),
        ok_stmt(c2.emit_jump(OpCode::JumpIfFalse, line), c4, held.insert(c2.offset() + 1)),
        rises(
            c2.emit_jump(OpCode::JumpIfFalse, line),
            c4,
            raised(h2, OpCode::JumpIfFalse, 0, 0),
            h4,
            held.insert(c2.offset() + 1),
            0,
            main,
        ),
    ensures
        rises(
            c,
            c4.emit_jump_to(OpCode::Jump, c.offset(), line).patch_here(
                c2.offset() + 1,
            ).close_loop(c4.emit_jump_to(OpCode::Jump, c.offset(), line).offset(), c.offset()),
            hs,
            raised(h4, OpCode::Jump, 0, 0),
            held,
            0,
            main,
        ),
{
    let c1 = c.push_loop();
    let s = c2.offset() + 1;
    let held1 = held.insert(s);
    let j = c2.emit_jump(OpCode::JumpIfFalse, line);
    let hj = raised(h2, OpCode::JumpIfFalse, 0, 0);
    lemma_longer_len(c1, c2);
    lemma_longer_len(j, c4);
    lemma_rise_jump(c1, c2, hs, h2, held, OpCode::JumpIfFalse, line, 1, main);
    lemma_then_jump(c1, c2, held, OpCode::JumpIfFalse, line);
    lemma_rises_trans(c1, j, c4, hs, hj, h4, held1, 0, 0, main);
    lemma_longer_trans(c1, j, c4);
    if c4.current.code.len() <= CODE_LIMIT {
        lemma_tidy_end(c, held);
        lemma_longer_boundary(c1, c4, c.offset());
    }
    let c5 = c4.emit_jump_to(OpCode::Jump, c.offset(), line);
    let h5 = raised(h4, OpCode::Jump, 0, 0);
    lemma_rise_jump_to(c1, c4, hs, h4, held1, c.offset(), line, 0, main);
    lemma_emit_jump_to(c4, held1, c.offset(), line);
    lemma_longer_of_grows(c4, c5);
    lemma_longer_trans(c1, c4, c5);
    lemma_longer_trans(j, c4, c5);
    if c5.offset() <= CODE_LIMIT {
        assert(kept(hj, h5));
        lemma_site_kept(j, c5, hj, h5, OpCode::JumpIfFalse, s - 1);
    }
    lemma_rise_patch(c1, c5, hs, h5, held, s, 0, main);
    lemma_bracket(c1, c5, held, s);
    let c6 = c5.patch_here(s);
    if c6.current.code.len() <= CODE_LIMIT {
        lemma_tidy_end(c6, held);
        lemma_tidy_end(c, held);
        lemma_longer_boundary(c1, c6, c.offset());
    }
    lemma_longer_len(c1, c6);
    lemma_even_close(c6, h5, held, c5.offset(), c.offset(), main);
    lemma_close_loop_frame(c6, c5.offset(), c.offset());
}

/// The end of a `for` loop, given the heights of its parts.
proof fn lemma_for_rise(
    c: CompilerModel,
    c1: CompilerModel,
    c2: CompilerModel,
    c4: CompilerModel,
    held: Set<int>,
    depth: nat,
    line: usize,
    hs: Seq<int>,
    h1: Seq<int>,
    h2: Seq<int>,
    h4: Seq<int>,
    main: bool,
) -> (later: Seq<int>)
    requires
        tidy(c, held),
        c.offset() <= CODE_LIMIT ==> hs[c.offset()] == 0,
        ok_expr(c, c1, held),
        rises(c, c1, hs, h1, held, 0, main),
        ok_expr(c1.push_loop(), c2, held),
        rises(c1.push_loop(), c2, h1, h2, held, 1, main),
        ok_stmt(c2.emit_jump(OpCode::JumpIfFalse, line), c4, held.insert(c2.offset() + 1)),
        rises(
            c2.emit_jump(OpCode::JumpIfFalse, line),
            c4,
            raised(h2, OpCode::JumpIfFalse, 0, 0),
            h4,
            held.insert(c2.offset() + 1),
            0,
            main,
        ),
        lower_for_step(c4, depth, c1.offset(), line) is Ok,
    ensures
        rises(
            c,
            lower_for_step(c4, depth, c1.offset(), line)->Ok_0.patch_here(
                c2.offset() + 1,
            ).close_loop(lower_for_step(c4, depth, c1.offset(), line)->Ok_0.offset(), c4.offset()),
            hs,
            later,
            held,
            0,
            main,
        ),
{
    let c1p = c1.push_loop();
    let s = c2.offset() + 1;
    let held1 = held.insert(s);
    let j = c2.emit_jump(OpCode::JumpIfFalse, line);
    let hj = raised(h2, OpCode::JumpIfFalse, 0, 0);
    lemma_longer_len(c, c1);
    lemma_longer_len(c1p, c2);
    lemma_longer_len(j, c4);
    lemma_rise_jump(c1p, c2, h1, h2, held, OpCode::JumpIfFalse, line, 1, main);
    lemma_then_jump(c1p, c2, held, OpCode::JumpIfFalse, line);
    lemma_rises_trans(c1p, j, c4, h1, hj, h4, held1, 0, 0, main);
    lemma_longer_trans(c1p, j, c4);
    if c4.current.code.len() <= CODE_LIMIT {
        lemma_tidy_end(c1, held);
        lemma_longer_boundary(c1p, c4, c1.offset());
    }
    let c5 = lower_for_step(c4, depth, c1.offset(), line)->Ok_0;
    let h5 = lemma_for_step_rise(c1p, c4, h1, h4, held1, depth, c1.offset(), line, main);
    lemma_for_step(c1p, c4, held1, depth, c1.offset(), line);
    lemma_longer_refl(c4);
    lemma_for_step(c4, c4, held1, depth, c1.offset(), line);
    lemma_longer_len(c4, c5);
    lemma_longer_trans(j, c4, c5);
    if c5.offset() <= CODE_LIMIT {
        assert(kept(hj, h5));
        lemma_site_kept(j, c5, hj, h5, OpCode::JumpIfFalse, s - 1);
    }
    lemma_rise_patch(c1p, c5, h1, h5, held, s, 0, main);
    lemma_bracket(c1p, c5, held, s);
    let c6 = c5.patch_here(s);
    lemma_patch_here(c5, held, s);
    if c6.current.code.len() <= CODE_LIMIT {
        lemma_tidy_end(c6, held);
        lemma_tidy_end(c4, held1);
        lemma_longer_boundary(c4, c5, c4.offset());
        assert(h5[c4.offset()] == h4[c4.offset()]);
    }
    lemma_even_close(c6, h5, held, c5.offset(), c4.offset(), main);
    lemma_close_loop_frame(c6, c5.offset(), c4.offset());
    h5
}

/// The code of an `if` leaves the stack as it found it, whichever branch
/// is taken.
proof fn lemma_if_rise(
    c: CompilerModel,
    stmt: Stmt,
    held: Set<int>,
    hs: Seq<int>,
    main: bool,
) -> (later: Seq<int>)
    requires
        tidy(c, held),
        even(c, hs, held, main),
        c.offset() <= CODE_LIMIT ==> hs[c.offset()] == 0,
        stmt is If,
        lower_stmt(c, stmt) is Ok,
        main ==> !leaves(stmt),
    ensures
        rises(c, lower_stmt(c, stmt)->Ok_0, hs, later, held, 0, main),
    decreases stmt, 0nat,
{
    match stmt {
        Stmt::If { condition, then_branch, else_branch, line } => {
            let h1 = lemma_expr_rise(c, condition, line, held, hs, main);
            lemma_expr_sound(c, condition, line, held);
            let c1 = lower_expr(c, condition, line)->Ok_0;
            let s1 = c1.offset() + 1;
            let held1 = held.insert(s1);
            lemma_longer_len(c, c1);
            lemma_rise_jump(c, c1, hs, h1, held, OpCode::JumpIfFalse, line, 1, main);
            lemma_then_jump(c, c1, held, OpCode::JumpIfFalse, line);
            let j = c1.emit_jump(OpCode::JumpIfFalse, line);
            let hj = raised(h1, OpCode::JumpIfFalse, 0, 0);
            let h2 = lemma_block_rise(j, then_branch@, held1, hj, main);
            lemma_block_sound(j, then_branch@, held1);
            let c2 = lower_block(j, then_branch@)->Ok_0;
            lemma_longer_len(j, c2);
            lemma_longer_trans(c, j, c2);
            lemma_rises_trans(c, j, c2, hs, hj, h2, held1, 0, 0, main);
            match else_branch {
                Some(else_stmts) => {
                    let s2 = c2.offset() + 1;
                    let held2 = held.insert(s2);
                    lemma_rise_jump(c, c2, hs, h2, held1, OpCode::Jump, line, 0, main);
                    lemma_then_jump(c, c2, held1, OpCode::Jump, line);
                    lemma_emit_jump(c2, held1, OpCode::Jump, line);
                    let j2 = c2.emit_jump(OpCode::Jump, line);
                    let hj2 = raised(h2, OpCode::Jump, 0, 0);
                    assert(held1.insert(s2) =~= held2.insert(s1));
                    lemma_longer_of_grows(c2, j2);
                    lemma_longer_trans(j, c2, j2);
                    if j2.offset() <= CODE_LIMIT {
                        assert(kept(hj, hj2));
                        lemma_site_kept(j, j2, hj, hj2, OpCode::JumpIfFalse, s1 - 1);
                    }
                    lemma_rise_patch(c, j2, hs, hj2, held2, s1, 0, main);
                    lemma_bracket(c, j2, held2, s1);
                    lemma_patch_here(j2, held2, s1);
                    let c3 = j2.patch_here(s1);
                    let h4 = lemma_block_rise(c3, else_stmts@, held2, hj2, main);
                    lemma_block_sound(c3, else_stmts@, held2);
                    let c4 = lower_block(c3, else_stmts@)->Ok_0;
                    lemma_longer_len(c, c3);
                    lemma_longer_len(c3, c4);
                    lemma_longer_trans(c, c3, c4);
                    lemma_rises_trans(c, c3, c4, hs, hj2, h4, held2, 0, 0, main);
                    if c4.offset() <= CODE_LIMIT {
                        crate::opcode::lemma_decode_inverts_byte(
                            OpCode::Jump,
                            OpCode::Jump.byte(),
                        );
                        assert(c3.current.code[s2 - 1] == OpCode::Jump.byte());
                        lemma_site_kept(c3, c4, hj2, h4, OpCode::Jump, s2 - 1);
                    }
                    lemma_rise_patch(c, c4, hs, h4, held, s2, 0, main);
                    h4
                },
                None => {
                    if c2.offset() <= CODE_LIMIT {
                        lemma_site_kept(j, c2, hj, h2, OpCode::JumpIfFalse, s1 - 1);
                    }
                    lemma_rise_patch(c, c2, hs, h2, held, s1, 0, main);
                    h2
                },
            }
        },
        _ => hs,
    }
}

/// The code of statements one after another leaves the stack as it found it.
pub proof fn lemma_block_rise(
    c: CompilerModel,
    stmts: Seq<Stmt>,
    held: Set<int>,
    hs: Seq<int>,
    main: bool,
) -> (later: Seq<int>)
    requires
        tidy(c, held),
        even(c, hs, held, main),
        c.offset() <= CODE_LIMIT ==> hs[c.offset()] == 0,
        lower_block(c, stmts) is Ok,
        main ==> !leaves_block(stmts),
    ensures
        rises(c, lower_block(c, stmts)->Ok_0, hs, later, held, 0, main),
    decreases stmts, 0nat,
{
    if stmts.len() == 0 {
        lemma_rises_refl(c, hs, held, main);
        hs
    } else {
        let mid = lemma_block_rise(c, stmts.drop_last(), held, hs, main);
        let c1 = lower_block(c, stmts.drop_last())->Ok_0;
        lemma_block_sound(c, stmts.drop_last(), held);
        lemma_longer_len(c, c1);
        let later = lemma_stmt_rise(c1, stmts.last(), held, mid, main);
        let c2 = lower_stmt(c1, stmts.last())->Ok_0;
        lemma_stmt_sound(c1, stmts.last(), held);
        lemma_longer_len(c1, c2);
        lemma_rises_trans(c, c1, c2, hs, mid, later, held, 0, 0, main);
        later
    }
}

/// The code of a statement leaves the stack as it found it: empty, as far
/// as the chunk's own values go.
pub proof fn lemma_stmt_rise(
    c: CompilerModel,
    stmt: Stmt,
    held: Set<int>,
    hs: Seq<int>,
    main: bool,
) -> (later: Seq<int>)
    requires
        tidy(c, held),
        even(c, hs, held, main),
        c.offset() <= CODE_LIMIT ==> hs[c.offset()] == 0,
        lower_stmt(c, stmt) is Ok,
        main ==> !leaves(stmt),
    ensures
        rises(c, lower_stmt(c, stmt)->Ok_0, hs, later, held, 0, main),
    decreases stmt, 1nat,
{
    lemma_rises_refl(c, hs, held, main);
    match stmt {
        Stmt::Let { name, value, line } => {
            let h1 = lemma_expr_rise(c, value, line, held, hs, main);
            lemma_expr_sound(c, value, line, held);
            let c1 = lower_expr(c, value, line)->Ok_0;
            lemma_longer_len(c, c1);
            let v = Data::Str(name@);
            lemma_rise_constant(c, c1, hs, h1, held, OpCode::Store, v, line, 1, main);
            raised(h1, OpCode::Store, index_of(c1, v), 0)
        },
        Stmt::Print { value, line } => {
            let h1 = lemma_expr_rise(c, value, line, held, hs, main);
            lemma_expr_sound(c, value, line, held);
            let c1 = lower_expr(c, value, line)->Ok_0;
            lemma_longer_len(c, c1);
            lemma_rise_plain(c, c1, hs, h1, held, OpCode::Print, line, 1, main);
            raised(h1, OpCode::Print, 0, 0)
        },
        Stmt::If { .. } => { lemma_if_rise(c, stmt, held, hs, main) },
        Stmt::While { condition, body, line } => {
            lemma_push_loop(c, held);
            lemma_even_push_loop(c, hs, held, main);
            let c1 = c.push_loop();
            let h2 = lemma_expr_rise(c1, condition, line, held, hs, main);
            lemma_expr_sound(c1, condition, line, held);
            let c2 = lower_expr(c1, condition, line)->Ok_0;
            lemma_longer_len(c1, c2);
            lemma_rise_jump(c1, c2, hs, h2, held, OpCode::JumpIfFalse, line, 1, main);
            lemma_emit_jump(c2, held, OpCode::JumpIfFalse, line);
            let j = c2.emit_jump(OpCode::JumpIfFalse, line);
            let hj = raised(h2, OpCode::JumpIfFalse, 0, 0);
            let h4 = lemma_block_rise(j, body@, held.insert(c2.offset() + 1), hj, main);
            lemma_block_sound(j, body@, held.insert(c2.offset() + 1));
            let c4 = lower_block(j, body@)->Ok_0;
            lemma_while_rise(c, c2, c4, held, line, hs, h2, h4, main);
            raised(h4, OpCode::Jump, 0, 0)
        },
        Stmt::For { variable, iterable, body, line } => {
            let depth = c.loops.len();
            let h0 = lemma_expr_rise(c, iterable, line, held, hs, main);
            lemma_expr_sound(c, iterable, line, held);
            let c0 = lower_expr(c, iterable, line)->Ok_0;
            lemma_longer_len(c, c0);
            let h1 = lemma_for_init_rise(c, c0, hs, h0, held, depth, line, main);
            lemma_for_init_tail(c, c0, held, depth, line);
            let c1 = lower_for_init(c, depth, iterable, line)->Ok_0;
            lemma_longer_len(c, c1);
            lemma_push_loop(c1, held);
            lemma_even_push_loop(c1, h1, held, main);
            let h2 = lemma_for_test_rise(c1.push_loop(), h1, held, depth, line, main);
            lemma_for_test(c1.push_loop(), held, depth, line);
            let c2 = lower_for_test(c1.push_loop(), depth, line)->Ok_0;
            lemma_longer_len(c1.push_loop(), c2);
            let held1 = held.insert(c2.offset() + 1);
            lemma_rise_jump(c1.push_loop(), c2, h1, h2, held, OpCode::JumpIfFalse, line, 1, main);
            lemma_emit_jump(c2, held, OpCode::JumpIfFalse, line);
            let j = c2.emit_jump(OpCode::JumpIfFalse, line);
            let hj = raised(h2, OpCode::JumpIfFalse, 0, 0);
            lemma_rises_refl(j, hj, held1, main);
            let h3 = lemma_for_fetch_rise(j, j, hj, hj, held1, depth, variable@, line, main);
            lemma_for_fetch(j, held1, depth, variable@, line);
            let c3 = lower_for_fetch(j, depth, variable@, line)->Ok_0;
            lemma_longer_len(j, c3);
            let h4 = lemma_block_rise(c3, body@, held1, h3, main);
            lemma_block_sound(c3, body@, held1);
            let c4 = lower_block(c3, body@)->Ok_0;
            lemma_longer_len(c3, c4);
            lemma_longer_trans(j, c3, c4);
            lemma_rises_trans(j, c3, c4, hj, h3, h4, held1, 0, 0, main);
            lemma_for_rise(c, c1, c2, c4, held, depth, line, hs, h1, h2, h4, main)
        },
        Stmt::Function { .. } => hs,
        Stmt::Return { value, line } => {
            match value {
                Some(e) => {
                    let h1 = lemma_expr_rise(c, e, line, held, hs, main);
                    lemma_expr_sound(c, e, line, held);
                    let c1 = lower_expr(c, e, line)->Ok_0;
                    lemma_longer_len(c, c1);
                    lemma_rise_plain(c, c1, hs, h1, held, OpCode::Return, line, 1, main);
                    raised(h1, OpCode::Return, 0, 0)
                },
                None => {
                    lemma_rise_plain(c, c, hs, hs, held, OpCode::ReturnNone, line, 0, main);
                    raised(hs, OpCode::ReturnNone, 0, 0)
                },
            }
        },
        Stmt::Break { line } => {
            lemma_break_rise(c, held, line, false, hs, main);
            raised(hs, OpCode::Jump, 0, 0)
        },
        Stmt::Continue { line } => {
            lemma_break_rise(c, held, line, true, hs, main);
            raised(hs, OpCode::Jump, 0, 0)
        },
        Stmt::IndexAssign { object, index, value, line } => {
            let v = Data::Str(object@);
            lemma_rise_constant(c, c, hs, hs, held, OpCode::Load, v, line, 0, main);
            lemma_emit_constant(c, held, OpCode::Load, v, line);
            let c1 = c.emit_with_constant(OpCode::Load, v, line)->Ok_0;
            let h1 = raised(hs, OpCode::Load, index_of(c, v), 0);
            let h2 = lemma_expr_rise(c1, index, line, held, h1, main);
            lemma_expr_sound(c1, index, line, held);
            let c2 = lower_expr(c1, index, line)->Ok_0;
            lemma_longer_len(c1, c2);
            lemma_rises_trans(c, c1, c2, hs, h1, h2, held, 1, 1, main);
            let h3 = lemma_expr_rise(c2, value, line, held, h2, main);
            lemma_expr_sound(c2, value, line, held);
            let c3 = lower_expr(c2, value, line)->Ok_0;
            lemma_longer_len(c2, c3);
            lemma_rises_trans(c, c2, c3, hs, h2, h3, held, 2, 1, main);
            lemma_rise_plain(c, c3, hs, h3, held, OpCode::SetIndex, line, 3, main);
            lemma_emit_plain(c3, held, OpCode::SetIndex, line);
            let c4 = c3.emit_op(OpCode::SetIndex, line);
            let h4 = raised(h3, OpCode::SetIndex, 0, 0);
            lemma_rise_constant(c, c4, hs, h4, held, OpCode::Store, v, line, 1, main);
            raised(h4, OpCode::Store, index_of(c4, v), 0)
        },
        Stmt::Expression { expr, line } => {
            let h1 = lemma_expr_rise(c, expr, line, held, hs, main);
            lemma_expr_sound(c, expr, line, held);
            let c1 = lower_expr(c, expr, line)->Ok_0;
            lemma_longer_len(c, c1);
            lemma_rise_plain(c, c1, hs, h1, held, OpCode::Pop, line, 1, main);
            raised(h1, OpCode::Pop, 0, 0)
        },
    }
}

} // verus!

//! How the steps of a compilation combine.

use vstd::prelude::*;
use crate::layout::{boundary, lemma_extend_boundary};
use crate::lowering::{
    CompilerModel, ONE_BITS, index_name, iter_name, lower_for_fetch, lower_for_step,
    lower_for_test,
};
use crate::opcode::OpCode;
use crate::shape::{CODE_LIMIT, grows, lemma_grows_refl, lemma_grows_trans, tidy, tidy_code};
use crate::steps::{
    lemma_emit_call,
    lemma_emit_constant,
    lemma_emit_jump,
    lemma_emit_jump_to,
    lemma_emit_plain,
    lemma_emit_u8,
    lemma_patch_here,
};
use crate::value::Data;

verus! {

/// Whether `d` comes after `c` in a compilation: the code is no shorter,
/// as many loops are open, and, within the limit, all is kept that a
/// step keeps.
#[verifier::opaque]
pub open spec fn longer(c: CompilerModel, d: CompilerModel) -> bool {
    &&& d.current.code.len() >= c.current.code.len()
    &&& d.loops.len() == c.loops.len()
    &&& d.functions == c.functions
    &&& (d.current.code.len() <= CODE_LIMIT ==> grows(c, d))
}

/// Whether `d` comes after `c` with its code tidy.
pub open spec fn ok_stmt(c: CompilerModel, d: CompilerModel, held: Set<int>) -> bool {
    longer(c, d) && tidy(d, held)
}

/// Whether `d` comes after `c` with its code tidy and the loops as they were.
pub open spec fn ok_expr(c: CompilerModel, d: CompilerModel, held: Set<int>) -> bool {
    longer(c, d) && tidy(d, held) && d.loops == c.loops
}

pub proof fn lemma_longer_refl(c: CompilerModel)
    ensures
        longer(c, c),
{
    reveal(longer);
    lemma_grows_refl(c);
}

pub proof fn lemma_longer_trans(a: CompilerModel, b: CompilerModel, c: CompilerModel)
    requires
        longer(a, b),
        longer(b, c),
    ensures
        longer(a, c),
{
    reveal(longer);
    if c.current.code.len() <= CODE_LIMIT {
        lemma_grows_trans(a, b, c);
    }
}

pub proof fn lemma_longer_len(c: CompilerModel, d: CompilerModel)
    requires
        longer(c, d),
    ensures
        d.current.code.len() >= c.current.code.len(),
        d.loops.len() == c.loops.len(),
        d.functions == c.functions,
{
    reveal(longer);
}

pub proof fn lemma_longer_of_grows(c: CompilerModel, d: CompilerModel)
    requires
        grows(c, d),
        d.current.code.len() >= c.current.code.len(),
    ensures
        longer(c, d),
{
    reveal(longer);
}

/// Within the limit, what was a boundary of the code stays one.
pub proof fn lemma_longer_boundary(c: CompilerModel, d: CompilerModel, to: int)
    requires
        longer(c, d),
        d.current.code.len() <= CODE_LIMIT,
        0 <= to <= c.current.code.len(),
        boundary(c.current.code, to),
    ensures
        boundary(d.current.code, to),
{
    reveal(longer);
    lemma_extend_boundary(c.current.code, d.current.code, to);
}

/// Tidy code ends at a boundary.
pub proof fn lemma_tidy_end(c: CompilerModel, held: Set<int>)
    requires
        tidy(c, held),
        c.current.code.len() <= CODE_LIMIT,
    ensures
        boundary(c.current.code, c.current.code.len() as int),
{
    reveal(tidy_code);
}

/// A placeholder in the new code, held while more code was compiled, is
/// given the end of the code as its target.
pub proof fn lemma_bracket(c: CompilerModel, e: CompilerModel, held: Set<int>, site: int)
    requires
        longer(c, e),
        tidy(e, held.insert(site)),
        c.current.code.len() <= site,
    ensures
        ok_stmt(c, e.patch_here(site), held),
        e.patch_here(site).loops == e.loops,
        e.patch_here(site).current.code.len() == e.current.code.len(),
{
    reveal(longer);
    let d = e.patch_here(site);
    lemma_patch_here(e, held, site);
    if d.current.code.len() <= CODE_LIMIT {
        assert(grows(c, e));
        assert(grows(c, d));
    }
}

/// An instruction without operands after tidy code.
pub proof fn lemma_then_plain(
    c: CompilerModel,
    e: CompilerModel,
    held: Set<int>,
    op: OpCode,
    line: usize,
)
    requires
        ok_expr(c, e, held),
        op.operand_len() == 0,
    ensures
        ok_expr(c, e.emit_op(op, line), held),
{
    lemma_emit_plain(e, held, op, line);
    lemma_longer_of_grows(e, e.emit_op(op, line));
    lemma_longer_trans(c, e, e.emit_op(op, line));
}

/// An instruction without operands after tidy code of a statement.
pub proof fn lemma_stmt_then_plain(
    c: CompilerModel,
    e: CompilerModel,
    held: Set<int>,
    op: OpCode,
    line: usize,
)
    requires
        ok_stmt(c, e, held),
        op.operand_len() == 0,
    ensures
        ok_stmt(c, e.emit_op(op, line), held),
{
    lemma_emit_plain(e, held, op, line);
    lemma_longer_of_grows(e, e.emit_op(op, line));
    lemma_longer_trans(c, e, e.emit_op(op, line));
}

/// An instruction with one operand byte after tidy code.
pub proof fn lemma_then_u8(
    c: CompilerModel,
    e: CompilerModel,
    held: Set<int>,
    op: OpCode,
    operand: u8,
    line: usize,
)
    requires
        ok_expr(c, e, held),
        op.operand_len() == 1,
    ensures
        ok_expr(c, e.emit_op_u8(op, operand, line), held),
{
    lemma_emit_u8(e, held, op, operand, line);
    lemma_longer_of_grows(e, e.emit_op_u8(op, operand, line));
    lemma_longer_trans(c, e, e.emit_op_u8(op, operand, line));
}

/// A constant and its instruction after tidy code.
pub proof fn lemma_then_constant(
    c: CompilerModel,
    e: CompilerModel,
    held: Set<int>,
    op: OpCode,
    value: Data,
    line: usize,
)
    requires
        ok_expr(c, e, held),
        op.operand_len() == 1,
        e.emit_with_constant(op, value, line) is Ok,
    ensures
        ok_expr(c, e.emit_with_constant(op, value, line)->Ok_0, held),
{
    lemma_emit_constant(e, held, op, value, line);
    lemma_longer_of_grows(e, e.emit_with_constant(op, value, line)->Ok_0);
    lemma_longer_trans(c, e, e.emit_with_constant(op, value, line)->Ok_0);
}

/// A constant and its instruction after tidy code of a statement.
pub proof fn lemma_stmt_then_constant(
    c: CompilerModel,
    e: CompilerModel,
    held: Set<int>,
    op: OpCode,
    value: Data,
    line: usize,
)
    requires
        ok_stmt(c, e, held),
        op.operand_len() == 1,
        e.emit_with_constant(op, value, line) is Ok,
    ensures
        ok_stmt(c, e.emit_with_constant(op, value, line)->Ok_0, held),
{
    lemma_emit_constant(e, held, op, value, line);
    lemma_longer_of_grows(e, e.emit_with_constant(op, value, line)->Ok_0);
    lemma_longer_trans(c, e, e.emit_with_constant(op, value, line)->Ok_0);
}

/// A call after the tidy code of its arguments.
pub proof fn lemma_then_call(
    c: CompilerModel,
    e: CompilerModel,
    held: Set<int>,
    value: Data,
    argc: u8,
    line: usize,
)
    requires
        ok_expr(c, e, held),
        e.emit_with_constant(OpCode::Call, value, line) is Ok,
    ensures
        ok_expr(c, e.emit_with_constant(OpCode::Call, value, line)->Ok_0.emit_byte(argc, line), held),
{
    let d = e.emit_with_constant(OpCode::Call, value, line)->Ok_0.emit_byte(argc, line);
    lemma_emit_call(e, held, value, argc, line);
    lemma_longer_of_grows(e, d);
    lemma_longer_trans(c, e, d);
}

/// A jump with a placeholder after tidy code: the placeholder is held.
pub proof fn lemma_then_jump(
    c: CompilerModel,
    e: CompilerModel,
    held: Set<int>,
    op: OpCode,
    line: usize,
)
    requires
        longer(c, e),
        tidy(e, held),
        op.is_jump(),
    ensures
        longer(c, e.emit_jump(op, line)),
        tidy(e.emit_jump(op, line), held.insert(e.current.code.len() as int + 1)),
        e.emit_jump(op, line).loops == e.loops,
        e.emit_jump(op, line).current.code.len() == e.current.code.len() + 3,
{
    lemma_emit_jump(e, held, op, line);
    lemma_longer_of_grows(e, e.emit_jump(op, line));
    lemma_longer_trans(c, e, e.emit_jump(op, line));
}

/// The test of a `for` loop is tidy code.
pub proof fn lemma_for_test(c: CompilerModel, held: Set<int>, depth: nat, line: usize)
    requires
        tidy(c, held),
        lower_for_test(c, depth, line) is Ok,
    ensures
        ok_expr(c, lower_for_test(c, depth, line)->Ok_0, held),
{
    lemma_longer_refl(c);
    let c1 = c.emit_with_constant(OpCode::Load, Data::Str(index_name(depth)), line)->Ok_0;
    lemma_then_constant(c, c, held, OpCode::Load, Data::Str(index_name(depth)), line);
    let c2 = c1.emit_with_constant(OpCode::Load, Data::Str(iter_name(depth)), line)->Ok_0;
    lemma_then_constant(c, c1, held, OpCode::Load, Data::Str(iter_name(depth)), line);
    lemma_then_call(c, c2, held, Data::Str("length"@), 1, line);
    let c3 = c2.emit_with_constant(OpCode::Call, Data::Str("length"@), line)->Ok_0.emit_byte(
        1,
        line,
    );
    lemma_then_plain(c, c3, held, OpCode::Lt, line);
}

/// The start of each round of a `for` loop is tidy code.
pub proof fn lemma_for_fetch(
    c: CompilerModel,
    held: Set<int>,
    depth: nat,
    variable: Seq<char>,
    line: usize,
)
    requires
        tidy(c, held),
        lower_for_fetch(c, depth, variable, line) is Ok,
    ensures
        ok_expr(c, lower_for_fetch(c, depth, variable, line)->Ok_0, held),
{
    lemma_longer_refl(c);
    let c1 = c.emit_with_constant(OpCode::Load, Data::Str(iter_name(depth)), line)->Ok_0;
    lemma_then_constant(c, c, held, OpCode::Load, Data::Str(iter_name(depth)), line);
    let c2 = c1.emit_with_constant(OpCode::Load, Data::Str(index_name(depth)), line)->Ok_0;
    lemma_then_constant(c, c1, held, OpCode::Load, Data::Str(index_name(depth)), line);
    lemma_then_plain(c, c2, held, OpCode::GetIndex, line);
    lemma_then_constant(
        c,
        c2.emit_op(OpCode::GetIndex, line),
        held,
        OpCode::Store,
        Data::Str(variable),
        line,
    );
}

/// The end of each round of a `for` loop is tidy code, if it starts over
/// at a boundary.
pub proof fn lemma_for_step(
    base: CompilerModel,
    c: CompilerModel,
    held: Set<int>,
    depth: nat,
    start: int,
    line: usize,
)
    requires
        ok_stmt(base, c, held),
        lower_for_step(c, depth, start, line) is Ok,
        0 <= start <= c.current.code.len(),
        c.current.code.len() <= CODE_LIMIT ==> boundary(c.current.code, start),
    ensures
        ok_stmt(base, lower_for_step(c, depth, start, line)->Ok_0, held),
        lower_for_step(c, depth, start, line)->Ok_0.loops == c.loops,
{
    let c1 = c.emit_with_constant(OpCode::Load, Data::Str(index_name(depth)), line)->Ok_0;
    lemma_stmt_then_constant(base, c, held, OpCode::Load, Data::Str(index_name(depth)), line);
    lemma_emit_constant(c, held, OpCode::Load, Data::Str(index_name(depth)), line);
    let c2 = c1.emit_with_constant(OpCode::PushConst, Data::Number(ONE_BITS), line)->Ok_0;
    lemma_stmt_then_constant(base, c1, held, OpCode::PushConst, Data::Number(ONE_BITS), line);
    lemma_emit_constant(c1, held, OpCode::PushConst, Data::Number(ONE_BITS), line);
    let c3 = c2.emit_op(OpCode::Add, line);
    lemma_stmt_then_plain(base, c2, held, OpCode::Add, line);
    lemma_emit_plain(c2, held, OpCode::Add, line);
    let c4 = c3.emit_with_constant(OpCode::Store, Data::Str(index_name(depth)), line)->Ok_0;
    lemma_stmt_then_constant(base, c3, held, OpCode::Store, Data::Str(index_name(depth)), line);
    lemma_emit_constant(c3, held, OpCode::Store, Data::Str(index_name(depth)), line);
    let d = c4.emit_jump_to(OpCode::Jump, start, line);
    if c4.current.code.len() <= CODE_LIMIT {
        lemma_longer_of_grows(c, c1);
        lemma_longer_of_grows(c1, c2);
        lemma_longer_of_grows(c2, c3);
        lemma_longer_of_grows(c3, c4);
        lemma_longer_trans(c, c1, c2);
        lemma_longer_trans(c, c2, c3);
        lemma_longer_trans(c, c3, c4);
        lemma_longer_boundary(c, c4, start);
    }
    lemma_emit_jump_to(c4, held, start, line);
    lemma_longer_of_grows(c4, d);
    lemma_longer_trans(base, c4, d);
}

} // verus!

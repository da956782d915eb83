//! What a chunk must hold in its pool: every constant that its code
//! names.  A chunk whose statements name more than 256 different
//! constants is therefore not compiled.

use vstd::prelude::*;
use crate::ast::{Expr, Stmt};
use crate::chunk::ChunkModel;
use crate::lowering::{
    CompilerModel, initial, lower_block, lower_expr, lower_exprs, lower_for_fetch, lower_for_init,
    lower_for_step, lower_for_test, lower_functions, lower_pairs, lower_program, lower_stmt,
    patch_all,
};
use crate::opcode::OpCode;
use crate::shape::lemma_patch_all_len;
use crate::value::Data;

verus! {

/// The constants that the code of an expression names: its literals,
/// and the names of its variables and of the functions that it calls.
pub open spec fn wanted_expr(e: Expr) -> Set<Data>
    decreases e, 1nat,
{
    match e {
        Expr::Number(n) => set![Data::Number(n.bits)],
        Expr::Str(s) => set![Data::Str(s@)],
        Expr::Bool(_) => Set::empty(),
        Expr::Variable(name) => set![Data::Str(name@)],
        Expr::Array(elems) => wanted_exprs(elems@),
        Expr::Dict(pairs) => wanted_pairs(pairs@),
        Expr::Index { object, index } => wanted_expr(*object) + wanted_expr(*index),
        Expr::Binary { left, op, right } => wanted_expr(*left) + wanted_expr(*right),
        Expr::Logical { left, op, right } => wanted_expr(*left) + wanted_expr(*right),
        Expr::Unary { op, operand } => wanted_expr(*operand),
        Expr::Call { name, arguments, line } => wanted_exprs(arguments@).insert(Data::Str(name@)),
    }
}

pub open spec fn wanted_exprs(exprs: Seq<Expr>) -> Set<Data>
    decreases exprs, 0nat,
{
    if exprs.len() == 0 {
        Set::empty()
    } else {
        wanted_exprs(exprs.drop_last()) + wanted_expr(exprs.last())
    }
}

pub open spec fn wanted_pairs(pairs: Seq<(Expr, Expr)>) -> Set<Data>
    decreases pairs, 0nat,
{
    if pairs.len() == 0 {
        Set::empty()
    } else {
        wanted_pairs(pairs.drop_last()) + wanted_expr(pairs.last().0) + wanted_expr(pairs.last().1)
    }
}

/// The constants that the code of a statement names in its own chunk:
/// those of its expressions, and the names of the variables that it
/// binds.  A function is compiled into a chunk of its own.
pub open spec fn wanted_stmt(stmt: Stmt) -> Set<Data>
    decreases stmt, 1nat,
{
    match stmt {
        Stmt::Let { name, value, line } => wanted_expr(value).insert(Data::Str(name@)),
        Stmt::Print { value, line } => wanted_expr(value),
        Stmt::If { condition, then_branch, else_branch, line } => wanted_expr(condition)
            + wanted_block(then_branch@) + (match else_branch {
            Some(e) => wanted_block(e@),
            None => Set::empty(),
        }),
        Stmt::While { condition, body, line } => wanted_expr(condition) + wanted_block(body@),
        Stmt::For { variable, iterable, body, line } => (wanted_expr(iterable) + wanted_block(
            body@,
        )).insert(Data::Str(variable@)),
        Stmt::Function { .. } => Set::empty(),
        Stmt::Return { value, line } => match value {
            Some(e) => wanted_expr(e),
            None => Set::empty(),
        },
        Stmt::Break { .. } => Set::empty(),
        Stmt::Continue { .. } => Set::empty(),
        Stmt::IndexAssign { object, index, value, line } => (wanted_expr(index) + wanted_expr(
            value,
        )).insert(Data::Str(object@)),
        Stmt::Expression { expr, line } => wanted_expr(expr),
    }
}

pub open spec fn wanted_block(stmts: Seq<Stmt>) -> Set<Data>
    decreases stmts, 0nat,
{
    if stmts.len() == 0 {
        Set::empty()
    } else {
        wanted_block(stmts.drop_last()) + wanted_stmt(stmts.last())
    }
}

/// Whether the pool of `b` holds every constant of the pool of `a`.
pub open spec fn pool_kept(a: ChunkModel, b: ChunkModel) -> bool {
    forall|v: Data| a.constants.contains(v) ==> #[trigger] b.constants.contains(v)
}

/// Whether the pool of `d` holds all that the pool of `c` holds, and
/// every constant of `wanted`.
pub open spec fn supplied(c: CompilerModel, d: CompilerModel, wanted: Set<Data>) -> bool {
    &&& pool_kept(c.current, d.current)
    &&& forall|v: Data| wanted.contains(v) ==> #[trigger] d.current.constants.contains(v)
}

/// A constant that is added is in the pool, with all that was there.
pub proof fn lemma_added(c: CompilerModel, op: OpCode, value: Data, line: usize)
    requires
        c.emit_with_constant(op, value, line) is Ok,
    ensures
        supplied(c, c.emit_with_constant(op, value, line)->Ok_0, set![value]),
{
    let d = c.emit_with_constant(op, value, line)->Ok_0;
    if c.current.holds(value) {
    } else {
        let pool = c.current.constants.push(value);
        assert(pool[c.current.constants.len() as int] == value);
        assert forall|v: Data| c.current.constants.contains(v) implies #[trigger] pool.contains(
            v,
        ) by {
            let i = choose|i: int| 0 <= i < c.current.constants.len() && c.current.constants[i] == v;
            assert(pool[i] == v);
        }
    }
}

/// What is supplied in two steps is supplied in all.
pub proof fn lemma_supplied_then(
    a: CompilerModel,
    b: CompilerModel,
    c: CompilerModel,
    first: Set<Data>,
    second: Set<Data>,
)
    requires
        supplied(a, b, first),
        supplied(b, c, second),
    ensures
        supplied(a, c, first + second),
{
    assert forall|v: Data| a.current.constants.contains(v) implies #[trigger] c.current.constants.contains(
        v,
    ) by {
        assert(b.current.constants.contains(v));
    }
    assert forall|v: Data| (first + second).contains(v) implies #[trigger] c.current.constants.contains(
        v,
    ) by {
        if first.contains(v) {
            assert(b.current.constants.contains(v));
        }
    }
}

/// A state with the same pool supplies what the other supplies.
pub proof fn lemma_supplied_same(
    a: CompilerModel,
    b: CompilerModel,
    c: CompilerModel,
    wanted: Set<Data>,
)
    requires
        supplied(a, b, wanted),
        c.current.constants == b.current.constants,
    ensures
        supplied(a, c, wanted),
{
}

pub proof fn lemma_exprs_supplied(c: CompilerModel, exprs: Seq<Expr>, line: usize)
    requires
        lower_exprs(c, exprs, line) is Ok,
    ensures
        supplied(c, lower_exprs(c, exprs, line)->Ok_0, wanted_exprs(exprs)),
    decreases exprs, 0nat,
{
    if exprs.len() > 0 {
        lemma_exprs_supplied(c, exprs.drop_last(), line);
        let c1 = lower_exprs(c, exprs.drop_last(), line)->Ok_0;
        lemma_expr_supplied(c1, exprs.last(), line);
        lemma_supplied_then(
            c,
            c1,
            lower_expr(c1, exprs.last(), line)->Ok_0,
            wanted_exprs(exprs.drop_last()),
            wanted_expr(exprs.last()),
        );
    }
}

pub proof fn lemma_pairs_supplied(c: CompilerModel, pairs: Seq<(Expr, Expr)>, line: usize)
    requires
        lower_pairs(c, pairs, line) is Ok,
    ensures
        supplied(c, lower_pairs(c, pairs, line)->Ok_0, wanted_pairs(pairs)),
    decreases pairs, 0nat,
{
    if pairs.len() > 0 {
        lemma_pairs_supplied(c, pairs.drop_last(), line);
        let c1 = lower_pairs(c, pairs.drop_last(), line)->Ok_0;
        lemma_expr_supplied(c1, pairs.last().0, line);
        let c2 = lower_expr(c1, pairs.last().0, line)->Ok_0;
        lemma_expr_supplied(c2, pairs.last().1, line);
        let c3 = lower_expr(c2, pairs.last().1, line)->Ok_0;
        lemma_supplied_then(
            c,
            c1,
            c2,
            wanted_pairs(pairs.drop_last()),
            wanted_expr(pairs.last().0),
        );
        lemma_supplied_then(
            c,
            c2,
            c3,
            wanted_pairs(pairs.drop_last()) + wanted_expr(pairs.last().0),
            wanted_expr(pairs.last().1),
        );
    }
}

/// The code of two expressions one after the other.
proof fn lemma_two_supplied(c: CompilerModel, left: Expr, right: Expr, line: usize, whole: Expr)
    requires
        lower_expr(c, left, line) is Ok,
        lower_expr(lower_expr(c, left, line)->Ok_0, right, line) is Ok,
        decreases_to!(whole => left),
        decreases_to!(whole => right),
    ensures
        supplied(
            c,
            lower_expr(lower_expr(c, left, line)->Ok_0, right, line)->Ok_0,
            wanted_expr(left) + wanted_expr(right),
        ),
    decreases whole, 0nat,
{
    lemma_expr_supplied(c, left, line);
    let c1 = lower_expr(c, left, line)->Ok_0;
    lemma_expr_supplied(c1, right, line);
    lemma_supplied_then(
        c,
        c1,
        lower_expr(c1, right, line)->Ok_0,
        wanted_expr(left),
        wanted_expr(right),
    );
}

/// The pool holds every constant that the code of an expression names.
pub proof fn lemma_expr_supplied(c: CompilerModel, expr: Expr, line: usize)
    requires
        lower_expr(c, expr, line) is Ok,
    ensures
        supplied(c, lower_expr(c, expr, line)->Ok_0, wanted_expr(expr)),
    decreases expr, 1nat,
{
    let d = lower_expr(c, expr, line)->Ok_0;
    match expr {
        Expr::Number(n) => {
            lemma_added(c, OpCode::PushConst, Data::Number(n.bits), line);
        },
        Expr::Str(s) => {
            lemma_added(c, OpCode::PushConst, Data::Str(s@), line);
        },
        Expr::Bool(b) => {},
        Expr::Variable(name) => {
            lemma_added(c, OpCode::Load, Data::Str(name@), line);
        },
        Expr::Array(elems) => {
            lemma_exprs_supplied(c, elems@, line);
        },
        Expr::Dict(pairs) => {
            lemma_pairs_supplied(c, pairs@, line);
        },
        Expr::Index { object, index } => {
            lemma_two_supplied(c, *object, *index, line, expr);
        },
        Expr::Binary { left, op, right } => {
            lemma_two_supplied(c, *left, *right, line, expr);
        },
        Expr::Logical { left, op, right } => {
            lemma_expr_supplied(c, *left, line);
            let c1 = lower_expr(c, *left, line)->Ok_0;
            let jump = match op {
                crate::ast::LogicalOp::And => OpCode::PeekJumpIfFalse,
                crate::ast::LogicalOp::Or => OpCode::PeekJumpIfTrue,
            };
            let c2 = c1.emit_jump(jump, line).emit_op(OpCode::Pop, line);
            lemma_supplied_same(c, c1, c2, wanted_expr(*left));
            lemma_expr_supplied(c2, *right, line);
            let c3 = lower_expr(c2, *right, line)->Ok_0;
            lemma_supplied_then(c, c2, c3, wanted_expr(*left), wanted_expr(*right));
        },
        Expr::Unary { op, operand } => {
            lemma_expr_supplied(c, *operand, line);
        },
        Expr::Call { name, arguments, line: at } => {
            lemma_exprs_supplied(c, arguments@, at);
            let c1 = lower_exprs(c, arguments@, at)->Ok_0;
            lemma_added(c1, OpCode::Call, Data::Str(name@), at);
            let c2 = c1.emit_with_constant(OpCode::Call, Data::Str(name@), at)->Ok_0;
            lemma_supplied_then(c, c1, c2, wanted_exprs(arguments@), set![Data::Str(name@)]);
            assert(wanted_exprs(arguments@) + set![Data::Str(name@)] =~= wanted_expr(expr));
        },
    }
}

/// Ending a loop changes no constant.
proof fn lemma_close_pool(c: CompilerModel, exit: int, next: int)
    ensures
        c.close_loop(exit, next).current.constants == c.current.constants,
{
    let top = c.loops.last();
    let first = patch_all(c.current, top.break_jumps, exit);
    lemma_patch_all_len(c.current, top.break_jumps, exit);
    lemma_patch_all_len(first, top.continue_jumps, next);
}

/// The start of a `for` loop keeps the pool.
proof fn lemma_for_init_supplied(c: CompilerModel, depth: nat, iterable: Expr, line: usize)
    requires
        lower_for_init(c, depth, iterable, line) is Ok,
    ensures
        supplied(c, lower_for_init(c, depth, iterable, line)->Ok_0, wanted_expr(iterable)),
{
    let none = Set::<Data>::empty();
    lemma_expr_supplied(c, iterable, line);
    let c1 = lower_expr(c, iterable, line)->Ok_0;
    let v1 = Data::Str(crate::lowering::iter_name(depth));
    let v2 = Data::Number(0);
    let v3 = Data::Str(crate::lowering::index_name(depth));
    lemma_added(c1, OpCode::Store, v1, line);
    let c2 = c1.emit_with_constant(OpCode::Store, v1, line)->Ok_0;
    lemma_added(c2, OpCode::PushConst, v2, line);
    let c3 = c2.emit_with_constant(OpCode::PushConst, v2, line)->Ok_0;
    lemma_added(c3, OpCode::Store, v3, line);
    let c4 = c3.emit_with_constant(OpCode::Store, v3, line)->Ok_0;
    lemma_supplied_then(c, c1, c2, wanted_expr(iterable), set![v1]);
    lemma_supplied_then(c, c2, c3, wanted_expr(iterable) + set![v1], set![v2]);
    lemma_supplied_then(c, c3, c4, wanted_expr(iterable) + set![v1] + set![v2], set![v3]);
}

/// The test of a `for` loop keeps the pool.
proof fn lemma_for_test_supplied(c: CompilerModel, depth: nat, line: usize)
    requires
        lower_for_test(c, depth, line) is Ok,
    ensures
        supplied(c, lower_for_test(c, depth, line)->Ok_0, Set::empty()),
{
    let v1 = Data::Str(crate::lowering::index_name(depth));
    let v2 = Data::Str(crate::lowering::iter_name(depth));
    let v3 = Data::Str("length"@);
    lemma_added(c, OpCode::Load, v1, line);
    let c1 = c.emit_with_constant(OpCode::Load, v1, line)->Ok_0;
    lemma_added(c1, OpCode::Load, v2, line);
    let c2 = c1.emit_with_constant(OpCode::Load, v2, line)->Ok_0;
    lemma_added(c2, OpCode::Call, v3, line);
    let c3 = c2.emit_with_constant(OpCode::Call, v3, line)->Ok_0;
    lemma_supplied_then(c, c1, c2, set![v1], set![v2]);
    lemma_supplied_then(c, c2, c3, set![v1] + set![v2], set![v3]);
}

/// The start of each round of a `for` loop names the loop's variable.
proof fn lemma_for_fetch_supplied(c: CompilerModel, depth: nat, variable: Seq<char>, line: usize)
    requires
        lower_for_fetch(c, depth, variable, line) is Ok,
    ensures
        supplied(c, lower_for_fetch(c, depth, variable, line)->Ok_0, set![Data::Str(variable)]),
{
    let v1 = Data::Str(crate::lowering::iter_name(depth));
    let v2 = Data::Str(crate::lowering::index_name(depth));
    let v3 = Data::Str(variable);
    lemma_added(c, OpCode::Load, v1, line);
    let c1 = c.emit_with_constant(OpCode::Load, v1, line)->Ok_0;
    lemma_added(c1, OpCode::Load, v2, line);
    let c2 = c1.emit_with_constant(OpCode::Load, v2, line)->Ok_0;
    let c3 = c2.emit_op(OpCode::GetIndex, line);
    lemma_added(c3, OpCode::Store, v3, line);
    let c4 = c3.emit_with_constant(OpCode::Store, v3, line)->Ok_0;
    lemma_supplied_then(c, c1, c2, set![v1], set![v2]);
    lemma_supplied_same(c, c2, c3, set![v1] + set![v2]);
    lemma_supplied_then(c, c3, c4, set![v1] + set![v2], set![v3]);
}

/// The end of each round of a `for` loop keeps the pool.
proof fn lemma_for_step_supplied(c: CompilerModel, depth: nat, start: int, line: usize)
    requires
        lower_for_step(c, depth, start, line) is Ok,
    ensures
        supplied(c, lower_for_step(c, depth, start, line)->Ok_0, Set::empty()),
{
    let v1 = Data::Str(crate::lowering::index_name(depth));
    let v2 = Data::Number(crate::lowering::ONE_BITS);
    lemma_added(c, OpCode::Load, v1, line);
    let c1 = c.emit_with_constant(OpCode::Load, v1, line)->Ok_0;
    lemma_added(c1, OpCode::PushConst, v2, line);
    let c2 = c1.emit_with_constant(OpCode::PushConst, v2, line)->Ok_0;
    let c3 = c2.emit_op(OpCode::Add, line);
    lemma_added(c3, OpCode::Store, v1, line);
    let c4 = c3.emit_with_constant(OpCode::Store, v1, line)->Ok_0;
    lemma_supplied_then(c, c1, c2, set![v1], set![v2]);
    lemma_supplied_same(c, c2, c3, set![v1] + set![v2]);
    lemma_supplied_then(c, c3, c4, set![v1] + set![v2], set![v1]);
    lemma_supplied_same(
        c,
        c4,
        c4.emit_jump_to(OpCode::Jump, start, line),
        set![v1] + set![v2] + set![v1],
    );
}

pub proof fn lemma_block_supplied(c: CompilerModel, stmts: Seq<Stmt>)
    requires
        lower_block(c, stmts) is Ok,
    ensures
        supplied(c, lower_block(c, stmts)->Ok_0, wanted_block(stmts)),
    decreases stmts, 0nat,
{
    if stmts.len() > 0 {
        lemma_block_supplied(c, stmts.drop_last());
        let c1 = lower_block(c, stmts.drop_last())->Ok_0;
        lemma_stmt_supplied(c1, stmts.last());
        lemma_supplied_then(
            c,
            c1,
            lower_stmt(c1, stmts.last())->Ok_0,
            wanted_block(stmts.drop_last()),
            wanted_stmt(stmts.last()),
        );
    }
}

/// The pool holds every constant that the code of a statement names.
pub proof fn lemma_stmt_supplied(c: CompilerModel, stmt: Stmt)
    requires
        lower_stmt(c, stmt) is Ok,
    ensures
        supplied(c, lower_stmt(c, stmt)->Ok_0, wanted_stmt(stmt)),
    decreases stmt, 1nat,
{
    let d = lower_stmt(c, stmt)->Ok_0;
    match stmt {
        Stmt::Let { name, value, line } => {
            lemma_expr_supplied(c, value, line);
            let c1 = lower_expr(c, value, line)->Ok_0;
            lemma_added(c1, OpCode::Store, Data::Str(name@), line);
            lemma_supplied_then(c, c1, d, wanted_expr(value), set![Data::Str(name@)]);
            assert(wanted_expr(value) + set![Data::Str(name@)] =~= wanted_stmt(stmt));
        },
        Stmt::Print { value, line } => {
            lemma_expr_supplied(c, value, line);
        },
        Stmt::If { condition, then_branch, else_branch, line } => {
            lemma_expr_supplied(c, condition, line);
            let c1 = lower_expr(c, condition, line)->Ok_0;
            let j = c1.emit_jump(OpCode::JumpIfFalse, line);
            lemma_supplied_same(c, c1, j, wanted_expr(condition));
            lemma_block_supplied(j, then_branch@);
            let c2 = lower_block(j, then_branch@)->Ok_0;
            lemma_supplied_then(c, j, c2, wanted_expr(condition), wanted_block(then_branch@));
            let first = wanted_expr(condition) + wanted_block(then_branch@);
            match else_branch {
                Some(else_stmts) => {
                    let c3 = c2.emit_jump(OpCode::Jump, line).patch_here(c1.offset() + 1);
                    lemma_supplied_same(c, c2, c3, first);
                    lemma_block_supplied(c3, else_stmts@);
                    let c4 = lower_block(c3, else_stmts@)->Ok_0;
                    lemma_supplied_then(c, c3, c4, first, wanted_block(else_stmts@));
                    lemma_supplied_same(c, c4, d, first + wanted_block(else_stmts@));
                },
                None => {
                    lemma_supplied_same(c, c2, d, first);
                    assert(first + Set::<Data>::empty() =~= first);
                },
            }
        },
        Stmt::While { condition, body, line } => {
            let c0 = c.push_loop();
            lemma_expr_supplied(c0, condition, line);
            let c1 = lower_expr(c0, condition, line)->Ok_0;
            let j = c1.emit_jump(OpCode::JumpIfFalse, line);
            lemma_supplied_same(c0, c1, j, wanted_expr(condition));
            lemma_block_supplied(j, body@);
            let c2 = lower_block(j, body@)->Ok_0;
            lemma_supplied_then(c0, j, c2, wanted_expr(condition), wanted_block(body@));
            let c3 = c2.emit_jump_to(OpCode::Jump, c.offset(), line);
            let c4 = c3.patch_here(c1.offset() + 1);
            lemma_close_pool(c4, c3.offset(), c.offset());
            lemma_supplied_same(c0, c2, d, wanted_stmt(stmt));
        },
        Stmt::For { variable, iterable, body, line } => {
            let depth = c.loops.len();
            lemma_for_init_supplied(c, depth, iterable, line);
            let c1 = lower_for_init(c, depth, iterable, line)->Ok_0;
            let c1p = c1.push_loop();
            lemma_for_test_supplied(c1p, depth, line);
            let c2 = lower_for_test(c1p, depth, line)->Ok_0;
            let j = c2.emit_jump(OpCode::JumpIfFalse, line);
            lemma_for_fetch_supplied(j, depth, variable@, line);
            let c3 = lower_for_fetch(j, depth, variable@, line)->Ok_0;
            lemma_block_supplied(c3, body@);
            let c4 = lower_block(c3, body@)->Ok_0;
            lemma_for_step_supplied(c4, depth, c1.offset(), line);
            let c5 = lower_for_step(c4, depth, c1.offset(), line)->Ok_0;
            let c6 = c5.patch_here(c2.offset() + 1);
            lemma_close_pool(c6, c5.offset(), c4.offset());
            let v = set![Data::Str(variable@)];
            lemma_supplied_same(c, c1, c1p, wanted_expr(iterable));
            lemma_supplied_then(c, c1p, c2, wanted_expr(iterable), Set::empty());
            lemma_supplied_same(c, c2, j, wanted_expr(iterable) + Set::<Data>::empty());
            lemma_supplied_then(c, j, c3, wanted_expr(iterable) + Set::<Data>::empty(), v);
            let mid = wanted_expr(iterable) + Set::<Data>::empty() + v;
            lemma_supplied_then(c, c3, c4, mid, wanted_block(body@));
            lemma_supplied_then(c, c4, c5, mid + wanted_block(body@), Set::empty());
            lemma_supplied_same(c, c5, d, mid + wanted_block(body@) + Set::<Data>::empty());
            assert(mid + wanted_block(body@) + Set::<Data>::empty() =~= wanted_stmt(stmt));
        },
        Stmt::Function { .. } => {},
        Stmt::Return { value, line } => {
            match value {
                Some(e) => {
                    lemma_expr_supplied(c, e, line);
                },
                None => {},
            }
        },
        Stmt::Break { line } => {},
        Stmt::Continue { line } => {},
        Stmt::IndexAssign { object, index, value, line } => {
            let v = Data::Str(object@);
            lemma_added(c, OpCode::Load, v, line);
            let c1 = c.emit_with_constant(OpCode::Load, v, line)->Ok_0;
            lemma_expr_supplied(c1, index, line);
            let c2 = lower_expr(c1, index, line)->Ok_0;
            lemma_expr_supplied(c2, value, line);
            let c3 = lower_expr(c2, value, line)->Ok_0;
            let c4 = c3.emit_op(OpCode::SetIndex, line);
            lemma_added(c4, OpCode::Store, v, line);
            lemma_supplied_then(c, c1, c2, set![v], wanted_expr(index));
            lemma_supplied_then(c, c2, c3, set![v] + wanted_expr(index), wanted_expr(value));
            let all = set![v] + wanted_expr(index) + wanted_expr(value);
            lemma_supplied_same(c, c3, c4, all);
            lemma_supplied_then(c, c4, d, all, set![v]);
            assert(all + set![v] =~= wanted_stmt(stmt));
        },
        Stmt::Expression { expr, line } => {
            lemma_expr_supplied(c, expr, line);
        },
    }
}

/// The pool of the main chunk of a compiled program holds every constant
/// that the statements of the program name: the literals, and the names
/// of the variables and of the functions called.  A pool holds at most
/// 256 constants, so a program whose statements name more is not
/// compiled.
pub proof fn lemma_program_supplied(program: Seq<Stmt>, v: Data)
    requires
        lower_program(program) is Ok,
        wanted_block(program).contains(v),
    ensures
        lower_program(program)->Ok_0.0.constants.contains(v),
{
    let c1 = lower_functions(initial(), program)->Ok_0;
    lemma_block_supplied(c1, program);
}

/// The constants that a pool holds are no more than its entries: what
/// is named by code whose pool holds it counts at most as many different
/// constants as the pool has entries.
pub proof fn lemma_pool_counts(chunk: ChunkModel, wanted: Set<Data>)
    requires
        forall|v: Data| wanted.contains(v) ==> #[trigger] chunk.constants.contains(v),
    ensures
        wanted.finite(),
        wanted.len() <= chunk.constants.len(),
{
    let held = chunk.constants.to_set();
    vstd::seq_lib::seq_to_set_is_finite(chunk.constants);
    chunk.constants.lemma_cardinality_of_set();
    assert(wanted.subset_of(held)) by {
        assert forall|v: Data| wanted.contains(v) implies held.contains(v) by {
            assert(chunk.constants.contains(v));
        }
    }
    vstd::set_lib::lemma_len_subset(wanted, held);
}

/// A function that has been defined is found under its name.
pub proof fn lemma_defined_found(
    table: crate::lowering::TableModel,
    name: Seq<char>,
    chunk: ChunkModel,
)
    ensures
        crate::lowering::find_function(
            crate::lowering::define_function(table, name, chunk),
            name,
        ) == Some(chunk),
    decreases table.len(),
{
    let after = crate::lowering::define_function(table, name, chunk);
    if table.len() == 0 {
    } else if table[0].0 == name {
    } else {
        let rest = table.skip(1);
        lemma_defined_found(rest, name, chunk);
        assert(after[0] == table[0]);
        assert(after.skip(1) =~= crate::lowering::define_function(rest, name, chunk));
    }
}

/// Storing the parameters keeps the pool.
proof fn lemma_params_supplied(c: CompilerModel, params: Seq<String>, line: usize)
    requires
        crate::lowering::lower_params(c, params, line) is Ok,
    ensures
        supplied(c, crate::lowering::lower_params(c, params, line)->Ok_0, Set::empty()),
    decreases params.len(),
{
    if params.len() > 0 {
        let v = Data::Str(params.last()@);
        lemma_added(c, OpCode::Store, v, line);
        let c1 = c.emit_with_constant(OpCode::Store, v, line)->Ok_0;
        lemma_params_supplied(c1, params.drop_last(), line);
        lemma_supplied_then(
            c,
            c1,
            crate::lowering::lower_params(c1, params.drop_last(), line)->Ok_0,
            set![v],
            Set::empty(),
        );
    }
}

/// The pool of the chunk of a compiled function holds every constant
/// that the statements of the function name, so that a function whose
/// statements name more than a pool can hold is not compiled.
pub proof fn lemma_function_supplied(
    c: CompilerModel,
    name: Seq<char>,
    params: Seq<String>,
    body: Seq<Stmt>,
    line: usize,
    v: Data,
)
    requires
        crate::lowering::lower_function(c, name, params, body, line) is Ok,
        wanted_block(body).contains(v),
    ensures
        crate::lowering::find_function(
            crate::lowering::lower_function(c, name, params, body, line)->Ok_0.functions,
            name,
        ) is Some,
        crate::lowering::find_function(
            crate::lowering::lower_function(c, name, params, body, line)->Ok_0.functions,
            name,
        )->0.constants.contains(v),
{
    let start = CompilerModel {
        current: crate::lowering::empty_chunk(name, params.len() as usize),
        ..c
    };
    lemma_params_supplied(start, params, line);
    let c1 = crate::lowering::lower_params(start, params, line)->Ok_0;
    lemma_block_supplied(c1, body);
    let c2 = lower_block(c1, body)->Ok_0;
    lemma_defined_found(c2.functions, name, c2.current.emit_op(OpCode::ReturnNone, line));
}

} // verus!

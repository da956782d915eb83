//! What compiled code does when the machine runs it.

use vstd::prelude::*;
use crate::ast::{Expr, LogicalOp, Stmt, UnaryOp};
use crate::chunk::{ChunkModel, MAX_CONSTANTS, high_byte, low_byte, target_of};
use crate::frames::{lemma_longer_len, lemma_longer_of_grows, longer};
use crate::lowering::{
    CompilerModel,
    binary_opcode,
    lower_expr,
    lower_exprs,
    lower_pairs,
    lower_stmt,
};
use crate::builtins::builtin_named;
use crate::machine::{Signal, VmModel, decode_next, name_at, step_model};
use crate::opcode::{OpCode, lemma_decode_inverts_byte};
use crate::shape::{CODE_LIMIT, constants_kept, grows, lemma_target_bytes, tidy};
use crate::sound::{lemma_expr_sound, lemma_exprs_sound, lemma_pairs_sound};
use crate::steps::{lemma_emit_jump, lemma_emit_plain, lemma_patch_here};
use crate::value::{Data, truthy};

verus! {

/// Whether the left operand of `and` or `or` decides the result by itself.
pub open spec fn decides(op: LogicalOp, left: Data) -> bool {
    match op {
        LogicalOp::And => !truthy(left),
        LogicalOp::Or => truthy(left),
    }
}

/// The jump that stands between the two operands of `and` or `or`.
pub open spec fn peek_jump(op: LogicalOp) -> OpCode {
    match op {
        LogicalOp::And => OpCode::PeekJumpIfFalse,
        LogicalOp::Or => OpCode::PeekJumpIfTrue,
    }
}

/// Moving the running frame twice is moving it to the second place.
pub proof fn lemma_at_twice(m: VmModel, a: int, b: int)
    requires
        m.frames.len() > 0,
    ensures
        m.at(a).at(b) == m.at(b),
{
    assert(m.at(a).at(b).frames =~= m.at(b).frames);
}

/// The code of `left and right` (or `left or right`): after the code of
/// `left` stands a jump past the code of `right`, and then a `POP`.
pub proof fn lemma_logical_layout(
    c: CompilerModel,
    left: Expr,
    op: LogicalOp,
    right: Expr,
    line: usize,
    held: Set<int>,
)
    requires
        tidy(c, held),
        lower_expr(
            c,
            Expr::Logical { left: Box::new(left), op, right: Box::new(right) },
            line,
        ) is Ok,
        lower_expr(
            c,
            Expr::Logical { left: Box::new(left), op, right: Box::new(right) },
            line,
        )->Ok_0.current.code.len() <= CODE_LIMIT,
    ensures
        ({
            let d = lower_expr(
                c,
                Expr::Logical { left: Box::new(left), op, right: Box::new(right) },
                line,
            )->Ok_0.current.code;
            let at = lower_expr(c, left, line)->Ok_0.offset();
            &&& lower_expr(c, left, line) is Ok
            &&& c.offset() <= at
            &&& at + 4 <= d.len()
            &&& d[at] == peek_jump(op).byte()
            &&& d[at + 1] == high_byte(d.len() as int)
            &&& d[at + 2] == low_byte(d.len() as int)
            &&& d[at + 3] == OpCode::Pop.byte()
        }),
{
    reveal(longer);
    let jump = peek_jump(op);
    lemma_expr_sound(c, left, line, held);
    let c1 = lower_expr(c, left, line)->Ok_0;
    let s = c1.offset() + 1;
    let held1 = held.insert(s);
    lemma_emit_jump(c1, held, jump, line);
    let j = c1.emit_jump(jump, line);
    lemma_emit_plain(j, held1, OpCode::Pop, line);
    let p = j.emit_op(OpCode::Pop, line);
    lemma_expr_sound(p, right, line, held1);
    let c3 = lower_expr(p, right, line)->Ok_0;
    lemma_patch_here(c3, held, s);
    let d = c3.patch_here(s);
    assert(grows(p, c3));
    let at = c1.offset();
    assert(p.current.code[at] == jump.byte());
    assert(p.current.code[at + 3] == OpCode::Pop.byte());
    assert(c3.current.code[at] == p.current.code[at]);
    assert(c3.current.code[at + 3] == p.current.code[at + 3]);
}

/// Short circuit: when the machine stands behind the code of the left
/// operand of `and`, with that operand's value on the stack, and the value
/// is falsy, one step takes it behind the whole expression with the stack
/// as it is: the value of the left operand is the result, and the code of
/// the right operand is not run.  Otherwise the step leads to the `POP`
/// that removes the value before the right operand is evaluated.  The
/// same holds of `or` with a truthy value.
pub proof fn lemma_short_circuit(
    c: CompilerModel,
    left: Expr,
    op: LogicalOp,
    right: Expr,
    line: usize,
    held: Set<int>,
    m: VmModel,
)
    requires
        tidy(c, held),
        lower_expr(
            c,
            Expr::Logical { left: Box::new(left), op, right: Box::new(right) },
            line,
        ) is Ok,
        lower_expr(
            c,
            Expr::Logical { left: Box::new(left), op, right: Box::new(right) },
            line,
        )->Ok_0.current.code.len() <= CODE_LIMIT,
        m.pending is None,
        m.frames.len() > 0,
        m.stack.len() > 0,
        m.top().ip == lower_expr(c, left, line)->Ok_0.offset(),
        m.top().chunk.code.len() >= lower_expr(
            c,
            Expr::Logical { left: Box::new(left), op, right: Box::new(right) },
            line,
        )->Ok_0.current.code.len(),
        forall|i: int|
            m.top().ip <= i < m.top().ip + 4 ==> m.top().chunk.code[i] == lower_expr(
                c,
                Expr::Logical { left: Box::new(left), op, right: Box::new(right) },
                line,
            )->Ok_0.current.code[i],
    ensures
        ({
            let end = lower_expr(
                c,
                Expr::Logical { left: Box::new(left), op, right: Box::new(right) },
                line,
            )->Ok_0.offset();
            &&& decides(op, m.stack.last()) ==> step_model(m) == Ok::<
                (VmModel, Signal),
                crate::error::ErrorModel,
            >((m.at(end), Signal::Continue))
            &&& !decides(op, m.stack.last()) ==> step_model(m) == Ok::<
                (VmModel, Signal),
                crate::error::ErrorModel,
            >((m.at(m.top().ip + 3), Signal::Continue))
            &&& m.top().chunk.code[m.top().ip + 3] == OpCode::Pop.byte()
        }),
{
    lemma_logical_layout(c, left, op, right, line, held);
    let whole = lower_expr(
        c,
        Expr::Logical { left: Box::new(left), op, right: Box::new(right) },
        line,
    )->Ok_0;
    let end = whole.offset();
    let f = m.top();
    let at = f.ip;
    let jump = peek_jump(op);
    lemma_decode_inverts_byte(jump, jump.byte());
    assert(f.chunk.code[at] == whole.current.code[at]);
    assert(f.chunk.code[at + 1] == whole.current.code[at + 1]);
    assert(f.chunk.code[at + 2] == whole.current.code[at + 2]);
    assert(f.chunk.code[at + 3] == whole.current.code[at + 3]);
    lemma_target_bytes(end);
    let i = decode_next(f)->Ok_0;
    assert(decode_next(f) is Ok);
    assert(i.op == jump);
    assert(i.next == at + 3);
    assert(target_of(i.a, i.b) == end);
    lemma_at_twice(m, at + 3, end);
    assert(m.at(at + 3).stack == m.stack);
}

/// Whether the machine is about to run an instruction.
pub open spec fn ready(m: VmModel) -> bool {
    m.pending is None && m.frames.len() > 0
}

/// The state with the running frame at `ip` and the given values on
/// top of the stack.
pub open spec fn arrived(m: VmModel, ip: int, values: Seq<Data>) -> VmModel {
    m.at(ip).with_stack(m.stack + values)
}

/// Whether `n` steps from `m` lead, without a word to the driver, to the
/// place `ip` with the given values on top of the stack, unless an error
/// stops them.
pub open spec fn lands(m: VmModel, n: nat, ip: int, values: Seq<Data>) -> bool {
    crate::machine::run_model(m, n) is Err || crate::machine::run_model(m, n) == Ok::<
        (VmModel, Signal),
        crate::error::ErrorModel,
    >((arrived(m, ip, values), Signal::Continue))
}

pub proof fn lemma_run_one(m: VmModel)
    ensures
        crate::machine::run_model(m, 1) == (match step_model(m) {
            Ok((next, Signal::Continue)) => Ok((next, Signal::Continue)),
            other => other,
        }),
{
    reveal_with_fuel(crate::machine::run_model, 2);
}

/// Steps after steps are steps.
pub proof fn lemma_run_then(m: VmModel, n1: nat, m1: VmModel, n2: nat)
    requires
        crate::machine::run_model(m, n1) == Ok::<(VmModel, Signal), crate::error::ErrorModel>(
            (m1, Signal::Continue),
        ),
    ensures
        crate::machine::run_model(m, n1 + n2) == crate::machine::run_model(m1, n2),
    decreases n1,
{
    if n1 > 0 {
        match step_model(m) {
            Ok((next, Signal::Continue)) => {
                lemma_run_then(next, (n1 - 1) as nat, m1, n2);
            },
            _ => {},
        }
    }
}

/// An error stops the steps.
pub proof fn lemma_run_err(m: VmModel, n1: nat, k: nat)
    requires
        crate::machine::run_model(m, n1) is Err,
    ensures
        crate::machine::run_model(m, n1 + k) == crate::machine::run_model(m, n1),
    decreases n1,
{
    if n1 > 0 {
        match step_model(m) {
            Ok((next, Signal::Continue)) => {
                lemma_run_err(next, (n1 - 1) as nat, k);
            },
            _ => {},
        }
    }
}

/// Arriving twice is arriving at the second place with all values.
pub proof fn lemma_arrived_twice(m: VmModel, a: int, first: Seq<Data>, b: int, second: Seq<Data>)
    requires
        m.frames.len() > 0,
    ensures
        arrived(arrived(m, a, first), b, second) == arrived(m, b, first + second),
        ready(m) ==> ready(arrived(m, a, first)),
        arrived(m, a, first).top().ip == a,
        arrived(m, a, first).top().chunk == m.top().chunk,
{
    let x = arrived(arrived(m, a, first), b, second);
    let y = arrived(m, b, first + second);
    assert(x.frames =~= y.frames);
    assert(x.stack =~= y.stack);
}

/// Landing after landing is landing.
pub proof fn lemma_lands_then(
    m: VmModel,
    n1: nat,
    a: int,
    first: Seq<Data>,
    n2: nat,
    b: int,
    second: Seq<Data>,
)
    requires
        m.frames.len() > 0,
        lands(m, n1, a, first),
        lands(arrived(m, a, first), n2, b, second),
    ensures
        lands(m, n1 + n2, b, first + second),
{
    if crate::machine::run_model(m, n1) is Err {
        lemma_run_err(m, n1, n2);
    } else {
        lemma_run_then(m, n1, arrived(m, a, first), n2);
        lemma_arrived_twice(m, a, first, b, second);
    }
}

/// Whether the code holds the given bytes at `at`.
pub open spec fn holds_bytes(code: Seq<u8>, at: int, bytes: Seq<u8>) -> bool {
    &&& 0 <= at
    &&& at + bytes.len() <= code.len()
    &&& forall|j: int| 0 <= j < bytes.len() ==> code[at + j] == bytes[j]
}

/// An instruction that pushes a constant or a variable's value: one step
/// leaves one more value on the stack, or is an error.
pub proof fn lemma_step_pushes(m: VmModel, op: OpCode, operand: u8) -> (v: Data)
    requires
        ready(m),
        op is PushConst || op is Load,
        holds_bytes(m.top().chunk.code, m.top().ip, seq![op.byte(), operand]),
    ensures
        lands(m, 1, m.top().ip + 2, seq![v]),
{
    let f = m.top();
    lemma_decode_inverts_byte(op, op.byte());
    assert(seq![op.byte(), operand][0] == op.byte());
    assert(seq![op.byte(), operand][1] == operand);
    assert(f.chunk.code[f.ip + 0] == op.byte());
    assert(f.chunk.code[f.ip + 1] == operand);
    lemma_run_one(m);
    let i = decode_next(f)->Ok_0;
    assert(decode_next(f) is Ok);
    let m1 = m.at(f.ip + 2);
    let v = match step_model(m) {
        Ok((next, _)) => next.stack.last(),
        Err(_) => Data::Nil,
    };
    if step_model(m) is Ok {
        let next = step_model(m)->Ok_0.0;
        assert(next == m1.push(v));
        assert(next.stack =~= m.stack + seq![v]);
        assert(next == arrived(m, f.ip + 2, seq![v]));
    }
    v
}

/// An instruction without operands that pushes a value whatever the
/// state: one step leaves that value on the stack.
pub proof fn lemma_step_literal(m: VmModel, op: OpCode) -> (v: Data)
    requires
        ready(m),
        op is PushTrue || op is PushFalse || op is PushNone,
        holds_bytes(m.top().chunk.code, m.top().ip, seq![op.byte()]),
    ensures
        lands(m, 1, m.top().ip + 1, seq![v]),
{
    let f = m.top();
    lemma_decode_inverts_byte(op, op.byte());
    assert(seq![op.byte()][0] == op.byte());
    assert(f.chunk.code[f.ip + 0] == op.byte());
    lemma_run_one(m);
    assert(decode_next(f) is Ok);
    let v = step_model(m)->Ok_0.0.stack.last();
    let next = step_model(m)->Ok_0.0;
    assert(next.stack =~= m.stack + seq![v]);
    assert(next == arrived(m, f.ip + 1, seq![v]));
    v
}

/// An instruction that takes values off the stack and leaves one: one
/// step does so, or is an error.
pub proof fn lemma_step_combines(m: VmModel, base: Seq<Data>, taken: Seq<Data>, op: OpCode) -> (v:
    Data)
    requires
        ready(m),
        m.stack == base + taken,
        crate::machine::is_binary(op) && taken.len() == 2 || (op is Neg || op is Not)
            && taken.len() == 1,
        holds_bytes(m.top().chunk.code, m.top().ip, seq![op.byte()]),
    ensures
        crate::machine::run_model(m, 1) is Err || crate::machine::run_model(m, 1) == Ok::<
            (VmModel, Signal),
            crate::error::ErrorModel,
        >((m.at(m.top().ip + 1).with_stack(base.push(v)), Signal::Continue)),
{
    let f = m.top();
    lemma_decode_inverts_byte(op, op.byte());
    assert(seq![op.byte()][0] == op.byte());
    assert(f.chunk.code[f.ip + 0] == op.byte());
    lemma_run_one(m);
    assert(decode_next(f) is Ok);
    let m1 = m.at(f.ip + 1);
    let v = match step_model(m) {
        Ok((next, _)) => next.stack.last(),
        Err(_) => Data::Nil,
    };
    if step_model(m) is Ok {
        let next = step_model(m)->Ok_0.0;
        let k = taken.len() as int;
        assert(m.stack.take(m.stack.len() - k) =~= base);
        assert(next.stack =~= base.push(v));
        assert(next == m1.with_stack(base.push(v)));
    }
    v
}

/// `POP`: one step takes the topmost value off the stack.
pub proof fn lemma_step_pop(m: VmModel, base: Seq<Data>, v: Data)
    requires
        ready(m),
        m.stack == base.push(v),
        holds_bytes(m.top().chunk.code, m.top().ip, seq![OpCode::Pop.byte()]),
    ensures
        crate::machine::run_model(m, 1) == Ok::<(VmModel, Signal), crate::error::ErrorModel>(
            (m.at(m.top().ip + 1).with_stack(base), Signal::Continue),
        ),
{
    let f = m.top();
    assert(seq![OpCode::Pop.byte()][0] == OpCode::Pop.byte());
    assert(f.chunk.code[f.ip + 0] == OpCode::Pop.byte());
    lemma_run_one(m);
    assert(decode_next(f) is Ok);
    let next = step_model(m)->Ok_0.0;
    assert(next.stack =~= base);
    assert(next == m.at(f.ip + 1).with_stack(base));
}

/// `MAKE_ARRAY`: one step replaces the elements on the stack by the array.
pub proof fn lemma_step_make_array(m: VmModel, base: Seq<Data>, items: Seq<Data>)
    requires
        ready(m),
        m.stack == base + items,
        items.len() <= 255,
        holds_bytes(
            m.top().chunk.code,
            m.top().ip,
            seq![OpCode::MakeArray.byte(), items.len() as u8],
        ),
    ensures
        crate::machine::run_model(m, 1) == Ok::<(VmModel, Signal), crate::error::ErrorModel>(
            (
                m.at(m.top().ip + 2).with_stack(base.push(Data::Array(items))),
                Signal::Continue,
            ),
        ),
{
    let f = m.top();
    assert(seq![OpCode::MakeArray.byte(), items.len() as u8][0] == OpCode::MakeArray.byte());
    assert(seq![OpCode::MakeArray.byte(), items.len() as u8][1] == items.len() as u8);
    assert(f.chunk.code[f.ip + 0] == OpCode::MakeArray.byte());
    assert(f.chunk.code[f.ip + 1] == items.len() as u8);
    lemma_run_one(m);
    assert(decode_next(f) is Ok);
    let next = step_model(m)->Ok_0.0;
    let n = m.stack.len() as int;
    assert(m.stack.subrange(n - items.len(), n) =~= items);
    assert(m.stack.take(n - items.len()) =~= base);
    assert(next.stack =~= base.push(Data::Array(items)));
    assert(next == m.at(f.ip + 2).with_stack(base.push(Data::Array(items))));
}

/// Taking pairs off a stack that holds enough values takes twice their
/// number of values, or fails.
pub proof fn lemma_take_pairs_all(stack: Seq<Data>, count: nat, line: usize)
    requires
        stack.len() >= 2 * count,
    ensures
        crate::machine::take_pairs(stack, count, line) is Err || crate::machine::take_pairs(
            stack,
            count,
            line,
        )->Ok_0.1 == stack.take(stack.len() - 2 * count),
    decreases count,
{
    if count == 0 {
        assert(stack.take(stack.len() as int) =~= stack);
    } else {
        let rest = stack.take(stack.len() - 2);
        lemma_take_pairs_all(rest, (count - 1) as nat, line);
        assert(rest.take(rest.len() - 2 * (count - 1)) =~= stack.take(stack.len() - 2 * count));
    }
}

/// `MAKE_DICT`: one step replaces the keys and values on the stack by
/// the dictionary, or is an error.
pub proof fn lemma_step_make_dict(m: VmModel, base: Seq<Data>, items: Seq<Data>, count: nat) -> (v:
    Data)
    requires
        ready(m),
        m.stack == base + items,
        items.len() == 2 * count,
        count <= 255,
        holds_bytes(m.top().chunk.code, m.top().ip, seq![OpCode::MakeDict.byte(), count as u8]),
    ensures
        crate::machine::run_model(m, 1) is Err || crate::machine::run_model(m, 1) == Ok::<
            (VmModel, Signal),
            crate::error::ErrorModel,
        >((m.at(m.top().ip + 2).with_stack(base.push(v)), Signal::Continue)),
{
    let f = m.top();
    assert(seq![OpCode::MakeDict.byte(), count as u8][0] == OpCode::MakeDict.byte());
    assert(seq![OpCode::MakeDict.byte(), count as u8][1] == count as u8);
    assert(f.chunk.code[f.ip + 0] == OpCode::MakeDict.byte());
    assert(f.chunk.code[f.ip + 1] == count as u8);
    lemma_run_one(m);
    assert(decode_next(f) is Ok);
    let i = decode_next(f)->Ok_0;
    lemma_take_pairs_all(m.stack, count, i.line);
    let v = match step_model(m) {
        Ok((next, _)) => next.stack.last(),
        Err(_) => Data::Nil,
    };
    if step_model(m) is Ok {
        let next = step_model(m)->Ok_0.0;
        assert(m.stack.take(m.stack.len() - 2 * count) =~= base);
        assert(next.stack =~= base.push(v));
        assert(next == m.at(f.ip + 2).with_stack(base.push(v)));
    }
    v
}

/// Whether the name is that of a built-in function that asks the outside
/// world for nothing.
pub open spec fn quiet(name: Seq<char>) -> bool {
    match builtin_named(name) {
        Some(b) => !(b is Input || b is ReadFile || b is WriteFile),
        None => false,
    }
}

/// Whether an expression calls nothing but built-in functions that ask
/// the outside world for nothing.
pub open spec fn pure(e: Expr) -> bool
    decreases e, 1nat,
{
    match e {
        Expr::Number(_) => true,
        Expr::Str(_) => true,
        Expr::Bool(_) => true,
        Expr::Variable(_) => true,
        Expr::Array(elems) => pure_all(elems@),
        Expr::Dict(pairs) => pure_pairs(pairs@),
        Expr::Index { object, index } => pure(*object) && pure(*index),
        Expr::Binary { left, op, right } => pure(*left) && pure(*right),
        Expr::Logical { left, op, right } => pure(*left) && pure(*right),
        Expr::Unary { op, operand } => pure(*operand),
        Expr::Call { name, arguments, line } => quiet(name@) && pure_all(arguments@),
    }
}

pub open spec fn pure_all(exprs: Seq<Expr>) -> bool
    decreases exprs, 0nat,
{
    if exprs.len() == 0 {
        true
    } else {
        pure_all(exprs.drop_last()) && pure(exprs.last())
    }
}

pub open spec fn pure_pairs(pairs: Seq<(Expr, Expr)>) -> bool
    decreases pairs, 0nat,
{
    if pairs.len() == 0 {
        true
    } else {
        pure_pairs(pairs.drop_last()) && pure(pairs.last().0) && pure(pairs.last().1)
    }
}

/// Whether the chunk `host` holds the bytes of the chunk `part` from
/// `from` on, and its constants as the first of its own, which are no more
/// than a pool can hold.
pub open spec fn hosts(host: ChunkModel, part: ChunkModel, from: int) -> bool {
    &&& part.code.len() <= host.code.len()
    &&& forall|i: int| from <= i < part.code.len() ==> host.code[i] == part.code[i]
    &&& constants_kept(part, host)
    &&& host.constants.len() <= MAX_CONSTANTS
}

/// What hosts code hosts the code as it was before it grew.
pub proof fn lemma_hosts_before(host: ChunkModel, c: CompilerModel, d: CompilerModel, from: int)
    requires
        longer(c, d),
        d.current.code.len() <= CODE_LIMIT,
        hosts(host, d.current, from),
        0 <= from,
    ensures
        hosts(host, c.current, from),
        c.current.code.len() <= d.current.code.len(),
{
    reveal(longer);
    assert forall|i: int| from <= i < c.current.code.len() implies host.code[i]
        == c.current.code[i] by {
        assert(c.current.code[i] == d.current.code[i]);
    }
    assert forall|i: int| 0 <= i < c.current.constants.len() implies c.current.constants[i]
        == host.constants[i] by {
        assert(c.current.constants[i] == d.current.constants[i]);
    }
}

/// One more step after landing is landing.
pub proof fn lemma_lands_finish(
    m: VmModel,
    n: nat,
    a: int,
    values: Seq<Data>,
    ip: int,
    result: Seq<Data>,
)
    requires
        m.frames.len() > 0,
        lands(m, n, a, values),
        crate::machine::run_model(arrived(m, a, values), 1) is Err || crate::machine::run_model(
            arrived(m, a, values),
            1,
        ) == Ok::<(VmModel, Signal), crate::error::ErrorModel>(
            (arrived(m, ip, result), Signal::Continue),
        ),
    ensures
        lands(m, n + 1, ip, result),
{
    if crate::machine::run_model(m, n) is Err {
        lemma_run_err(m, n, 1);
    } else {
        lemma_run_then(m, n, arrived(m, a, values), 1);
    }
}

/// Standing still is landing.
pub proof fn lemma_lands_nowhere(m: VmModel)
    requires
        m.frames.len() > 0,
    ensures
        lands(m, 0, m.top().ip, Seq::empty()),
{
    let x = arrived(m, m.top().ip, Seq::empty());
    assert(x.frames =~= m.frames);
    assert(x.stack =~= m.stack);
    reveal_with_fuel(crate::machine::run_model, 1);
}

/// The code of a constant or a variable: one instruction that pushes.
proof fn lemma_pure_constant(
    c: CompilerModel,
    op: OpCode,
    value: Data,
    line: usize,
    m: VmModel,
) -> (v: Data)
    requires
        op is PushConst || op is Load,
        c.emit_with_constant(op, value, line) is Ok,
        ready(m),
        m.top().ip == c.offset(),
        hosts(
            m.top().chunk,
            c.emit_with_constant(op, value, line)->Ok_0.current,
            c.offset(),
        ),
    ensures
        lands(m, 1, c.emit_with_constant(op, value, line)->Ok_0.offset(), seq![v]),
{
    let d = c.emit_with_constant(op, value, line)->Ok_0;
    let idx = c.current.constant_index(value) as u8;
    let at = c.offset();
    assert(d.current.code[at] == op.byte());
    assert(d.current.code[at + 1] == idx);
    let bytes = seq![op.byte(), idx];
    assert(holds_bytes(m.top().chunk.code, at, bytes)) by {
        assert forall|j: int| 0 <= j < bytes.len() implies m.top().chunk.code[at + j]
            == bytes[j] by {
            assert(m.top().chunk.code[at + j] == d.current.code[at + j]);
        }
    }
    lemma_step_pushes(m, op, idx)
}

/// After landing with values, an instruction without operands that
/// combines them into one lands with the one.
proof fn lemma_combine_lands(
    m: VmModel,
    n: nat,
    at: int,
    taken: Seq<Data>,
    op: OpCode,
) -> (v: Data)
    requires
        ready(m),
        lands(m, n, at, taken),
        crate::machine::is_binary(op) && taken.len() == 2 || (op is Neg || op is Not)
            && taken.len() == 1,
        0 <= at < m.top().chunk.code.len(),
        m.top().chunk.code[at] == op.byte(),
    ensures
        lands(m, n + 1, at + 1, seq![v]),
{
    let m2 = arrived(m, at, taken);
    lemma_arrived_twice(m, at, taken, at, Seq::empty());
    let bytes = seq![op.byte()];
    assert(holds_bytes(m2.top().chunk.code, at, bytes)) by {
        assert forall|j: int| 0 <= j < bytes.len() implies m2.top().chunk.code[at + j]
            == bytes[j] by {}
    }
    let v = lemma_step_combines(m2, m.stack, taken, op);
    let target = m2.at(at + 1).with_stack(m.stack.push(v));
    let want = arrived(m, at + 1, seq![v]);
    assert(target.frames =~= want.frames);
    assert(target.stack =~= want.stack);
    lemma_lands_finish(m, n, at, taken, at + 1, seq![v]);
    v
}

pub proof fn lemma_pure_exprs(
    c: CompilerModel,
    exprs: Seq<Expr>,
    line: usize,
    held: Set<int>,
    m: VmModel,
) -> (r: (nat, Seq<Data>))
    requires
        tidy(c, held),
        pure_all(exprs),
        lower_exprs(c, exprs, line) is Ok,
        lower_exprs(c, exprs, line)->Ok_0.current.code.len() <= CODE_LIMIT,
        ready(m),
        m.top().ip == c.offset(),
        hosts(m.top().chunk, lower_exprs(c, exprs, line)->Ok_0.current, c.offset()),
    ensures
        r.1.len() == exprs.len(),
        lands(m, r.0, lower_exprs(c, exprs, line)->Ok_0.offset(), r.1),
    decreases exprs, 0nat,
{
    if exprs.len() == 0 {
        lemma_lands_nowhere(m);
        (0, Seq::empty())
    } else {
        let d = lower_exprs(c, exprs, line)->Ok_0;
        let c1 = lower_exprs(c, exprs.drop_last(), line)->Ok_0;
        lemma_exprs_sound(c, exprs.drop_last(), line, held);
        lemma_expr_sound(c1, exprs.last(), line, held);
        lemma_hosts_before(m.top().chunk, c1, d, c.offset());
        let first = lemma_pure_exprs(c, exprs.drop_last(), line, held, m);
        let m1 = arrived(m, c1.offset(), first.1);
        lemma_arrived_twice(m, c1.offset(), first.1, c1.offset(), Seq::empty());
        lemma_longer_len(c, c1);
        let second = lemma_pure_expr(c1, exprs.last(), line, held, m1);
        lemma_lands_then(m, first.0, c1.offset(), first.1, second.0, d.offset(), seq![second.1]);
        (first.0 + second.0, first.1 + seq![second.1])
    }
}

pub proof fn lemma_pure_pairs(
    c: CompilerModel,
    pairs: Seq<(Expr, Expr)>,
    line: usize,
    held: Set<int>,
    m: VmModel,
) -> (r: (nat, Seq<Data>))
    requires
        tidy(c, held),
        pure_pairs(pairs),
        lower_pairs(c, pairs, line) is Ok,
        lower_pairs(c, pairs, line)->Ok_0.current.code.len() <= CODE_LIMIT,
        ready(m),
        m.top().ip == c.offset(),
        hosts(m.top().chunk, lower_pairs(c, pairs, line)->Ok_0.current, c.offset()),
    ensures
        r.1.len() == 2 * pairs.len(),
        lands(m, r.0, lower_pairs(c, pairs, line)->Ok_0.offset(), r.1),
    decreases pairs, 0nat,
{
    if pairs.len() == 0 {
        lemma_lands_nowhere(m);
        (0, Seq::empty())
    } else {
        let d = lower_pairs(c, pairs, line)->Ok_0;
        let c1 = lower_pairs(c, pairs.drop_last(), line)->Ok_0;
        let c2 = lower_expr(c1, pairs.last().0, line)->Ok_0;
        lemma_pairs_sound(c, pairs.drop_last(), line, held);
        lemma_expr_sound(c1, pairs.last().0, line, held);
        lemma_expr_sound(c2, pairs.last().1, line, held);
        let host = m.top().chunk;
        lemma_hosts_before(host, c2, d, c.offset());
        lemma_hosts_before(host, c1, c2, c.offset());
        lemma_longer_len(c, c1);
        lemma_longer_len(c1, c2);
        let first = lemma_pure_pairs(c, pairs.drop_last(), line, held, m);
        let m1 = arrived(m, c1.offset(), first.1);
        lemma_arrived_twice(m, c1.offset(), first.1, c1.offset(), Seq::empty());
        let key = lemma_pure_expr(c1, pairs.last().0, line, held, m1);
        lemma_lands_then(m, first.0, c1.offset(), first.1, key.0, c2.offset(), seq![key.1]);
        let m2 = arrived(m, c2.offset(), first.1 + seq![key.1]);
        lemma_arrived_twice(m, c2.offset(), first.1 + seq![key.1], c2.offset(), Seq::empty());
        let value = lemma_pure_expr(c2, pairs.last().1, line, held, m2);
        lemma_lands_then(
            m,
            first.0 + key.0,
            c2.offset(),
            first.1 + seq![key.1],
            value.0,
            d.offset(),
            seq![value.1],
        );
        (first.0 + key.0 + value.0, first.1 + seq![key.1] + seq![value.1])
    }
}

/// The code of an expression that calls nothing but built-in functions
/// which ask for nothing runs without a word to the driver: the machine
/// comes to stand behind the code with one more value on the stack, and
/// nothing else changed, unless an error stops it.
pub proof fn lemma_pure_expr(
    c: CompilerModel,
    expr: Expr,
    line: usize,
    held: Set<int>,
    m: VmModel,
) -> (r: (nat, Data))
    requires
        tidy(c, held),
        pure(expr),
        lower_expr(c, expr, line) is Ok,
        lower_expr(c, expr, line)->Ok_0.current.code.len() <= CODE_LIMIT,
        ready(m),
        m.top().ip == c.offset(),
        hosts(m.top().chunk, lower_expr(c, expr, line)->Ok_0.current, c.offset()),
    ensures
        lands(m, r.0, lower_expr(c, expr, line)->Ok_0.offset(), seq![r.1]),
    decreases expr, 1nat,
{
    match expr {
        Expr::Number(n) => {
            let v = lemma_pure_constant(c, OpCode::PushConst, Data::Number(n.bits), line, m);
            (1, v)
        },
        Expr::Str(s) => {
            let v = lemma_pure_constant(c, OpCode::PushConst, Data::Str(s@), line, m);
            (1, v)
        },
        Expr::Bool(b) => {
            let v = lemma_pure_bool(c, b, line, m);
            (1, v)
        },
        Expr::Variable(name) => {
            let v = lemma_pure_constant(c, OpCode::Load, Data::Str(name@), line, m);
            (1, v)
        },
        Expr::Array(_) => lemma_pure_array(c, expr, line, held, m),
        Expr::Dict(_) => lemma_pure_dict(c, expr, line, held, m),
        Expr::Index { .. } => lemma_pure_binary(c, expr, line, held, m),
        Expr::Binary { .. } => lemma_pure_binary(c, expr, line, held, m),
        Expr::Logical { .. } => lemma_pure_logical(c, expr, line, held, m),
        Expr::Unary { .. } => lemma_pure_unary(c, expr, line, held, m),
        Expr::Call { .. } => lemma_pure_call(c, expr, line, held, m),
    }
}

proof fn lemma_pure_bool(c: CompilerModel, b: bool, line: usize, m: VmModel) -> (v: Data)
    requires
        ready(m),
        m.top().ip == c.offset(),
        hosts(
            m.top().chunk,
            c.emit_op(if b { OpCode::PushTrue } else { OpCode::PushFalse }, line).current,
            c.offset(),
        ),
    ensures
        lands(m, 1, c.offset() + 1, seq![v]),
{
    let op = if b {
        OpCode::PushTrue
    } else {
        OpCode::PushFalse
    };
    let d = c.emit_op(op, line);
    let host = m.top().chunk;
    let bytes = seq![op.byte()];
    assert(d.current.code[c.offset()] == op.byte());
    assert(holds_bytes(host.code, c.offset(), bytes)) by {
        assert forall|j: int| 0 <= j < bytes.len() implies host.code[c.offset() + j] == bytes[j] by {
            assert(host.code[c.offset() + j] == d.current.code[c.offset() + j]);
        }
    }
    lemma_step_literal(m, op)
}

/// After landing with the elements, the instruction that makes the
/// array or the dictionary of them lands with it.
proof fn lemma_collect_lands(
    m: VmModel,
    n: nat,
    at: int,
    items: Seq<Data>,
    op: OpCode,
    count: nat,
) -> (v: Data)
    requires
        ready(m),
        lands(m, n, at, items),
        count <= 255,
        op is MakeArray && items.len() == count || op is MakeDict && items.len() == 2 * count,
        0 <= at,
        at + 1 < m.top().chunk.code.len(),
        m.top().chunk.code[at] == op.byte(),
        m.top().chunk.code[at + 1] == count as u8,
    ensures
        lands(m, n + 1, at + 2, seq![v]),
{
    let m1 = arrived(m, at, items);
    lemma_arrived_twice(m, at, items, at, Seq::empty());
    let bytes = seq![op.byte(), count as u8];
    assert(holds_bytes(m1.top().chunk.code, at, bytes)) by {
        assert forall|j: int| 0 <= j < bytes.len() implies m1.top().chunk.code[at + j]
            == bytes[j] by {}
    }
    let v = if op is MakeArray {
        lemma_step_make_array(m1, m.stack, items);
        Data::Array(items)
    } else {
        lemma_step_make_dict(m1, m.stack, items, count)
    };
    let target = m1.at(at + 2).with_stack(m.stack.push(v));
    let want = arrived(m, at + 2, seq![v]);
    assert(target.frames =~= want.frames);
    assert(target.stack =~= want.stack);
    lemma_lands_finish(m, n, at, items, at + 2, seq![v]);
    v
}

/// Where the instruction stands that follows the code of the parts of an
/// expression, in the code that hosts the whole.
proof fn lemma_tail_layout(
    c: CompilerModel,
    c1: CompilerModel,
    d: CompilerModel,
    host: ChunkModel,
    held: Set<int>,
)
    requires
        tidy(c1, held),
        longer(c, c1),
        longer(c1, d),
        d.current.code.len() <= CODE_LIMIT,
        hosts(host, d.current, c.offset()),
    ensures
        hosts(host, c1.current, c.offset()),
        c.offset() <= c1.offset() <= d.offset(),
        c1.current.code.len() <= CODE_LIMIT,
        forall|i: int| c1.offset() <= i < d.offset() ==> host.code[i] == d.current.code[i],
{
    lemma_hosts_before(host, c1, d, c.offset());
    lemma_longer_len(c, c1);
    lemma_longer_len(c1, d);
}

/// `CALL` of a built-in function that asks for nothing: one step replaces
/// the arguments on the stack by the result, or is an error.
pub proof fn lemma_step_call(m: VmModel, base: Seq<Data>, args: Seq<Data>, idx: u8, name: Seq<char>)
    -> (v: Data)
    requires
        ready(m),
        m.stack == base + args,
        args.len() <= 255,
        holds_bytes(
            m.top().chunk.code,
            m.top().ip,
            seq![OpCode::Call.byte(), idx, args.len() as u8],
        ),
        name_at(m.top().chunk, idx) == Some(name),
        quiet(name),
    ensures
        crate::machine::run_model(m, 1) is Err || crate::machine::run_model(m, 1) == Ok::<
            (VmModel, Signal),
            crate::error::ErrorModel,
        >((m.at(m.top().ip + 3).with_stack(base.push(v)), Signal::Continue)),
{
    let f = m.top();
    let bytes = seq![OpCode::Call.byte(), idx, args.len() as u8];
    assert(bytes[0] == OpCode::Call.byte());
    assert(bytes[1] == idx);
    assert(bytes[2] == args.len() as u8);
    assert(f.chunk.code[f.ip + 0] == OpCode::Call.byte());
    assert(f.chunk.code[f.ip + 1] == idx);
    assert(f.chunk.code[f.ip + 2] == args.len() as u8);
    lemma_run_one(m);
    assert(decode_next(f) is Ok);
    let i = decode_next(f)->Ok_0;
    let m1 = m.at(f.ip + 3);
    let n = m.stack.len() as int;
    assert(m1.stack.subrange(n - args.len(), n) =~= args);
    assert(m1.stack.take(n - args.len()) =~= base);
    assert(m1.top().chunk == f.chunk);
    let v = match step_model(m) {
        Ok((next, _)) => next.stack.last(),
        Err(_) => Data::Nil,
    };
    if step_model(m) is Ok {
        let next = step_model(m)->Ok_0.0;
        assert(next.stack =~= base.push(v));
        assert(next == m1.with_stack(base.push(v)));
    }
    v
}

/// After landing with the arguments, the call of a built-in function
/// that asks for nothing lands with its result.
proof fn lemma_call_lands(
    m: VmModel,
    n: nat,
    at: int,
    items: Seq<Data>,
    idx: u8,
    name: Seq<char>,
) -> (v: Data)
    requires
        ready(m),
        lands(m, n, at, items),
        items.len() <= 255,
        0 <= at,
        at + 2 < m.top().chunk.code.len(),
        m.top().chunk.code[at] == OpCode::Call.byte(),
        m.top().chunk.code[at + 1] == idx,
        m.top().chunk.code[at + 2] == items.len() as u8,
        name_at(m.top().chunk, idx) == Some(name),
        quiet(name),
    ensures
        lands(m, n + 1, at + 3, seq![v]),
{
    let m1 = arrived(m, at, items);
    lemma_arrived_twice(m, at, items, at, Seq::empty());
    let bytes = seq![OpCode::Call.byte(), idx, items.len() as u8];
    assert(holds_bytes(m1.top().chunk.code, at, bytes)) by {
        assert forall|j: int| 0 <= j < bytes.len() implies m1.top().chunk.code[at + j]
            == bytes[j] by {}
    }
    let v = lemma_step_call(m1, m.stack, items, idx, name);
    let target = m1.at(at + 3).with_stack(m.stack.push(v));
    let want = arrived(m, at + 3, seq![v]);
    assert(target.frames =~= want.frames);
    assert(target.stack =~= want.stack);
    lemma_lands_finish(m, n, at, items, at + 3, seq![v]);
    v
}

/// The constant that is added is found under its index, which fits a byte.
proof fn lemma_constant_found(chunk: ChunkModel, value: Data)
    requires
        chunk.has_room(value),
        chunk.constants.len() <= MAX_CONSTANTS,
    ensures
        0 <= chunk.constant_index(value) < chunk.add_constant(value).constants.len(),
        chunk.constant_index(value) <= 255,
        chunk.add_constant(value).constants[chunk.constant_index(value)] == value,
{
    if chunk.holds(value) {
        let i = choose|i: int| 0 <= i < chunk.constants.len() && chunk.constants[i] == value;
        assert(chunk.constants[chunk.constants.index_of(value)] == value);
    }
}

/// The code of a call of a built-in function that asks for nothing, with
/// arguments that call nothing else.
pub proof fn lemma_pure_call(
    c: CompilerModel,
    whole: Expr,
    line: usize,
    held: Set<int>,
    m: VmModel,
) -> (r: (nat, Data))
    requires
        tidy(c, held),
        whole is Call,
        pure(whole),
        lower_expr(c, whole, line) is Ok,
        lower_expr(c, whole, line)->Ok_0.current.code.len() <= CODE_LIMIT,
        ready(m),
        m.top().ip == c.offset(),
        hosts(m.top().chunk, lower_expr(c, whole, line)->Ok_0.current, c.offset()),
    ensures
        lands(m, r.0, lower_expr(c, whole, line)->Ok_0.offset(), seq![r.1]),
    decreases whole, 0nat,
{
    let d = lower_expr(c, whole, line)->Ok_0;
    let host = m.top().chunk;
    match whole {
        Expr::Call { name, arguments, line: at } => {
            let value = Data::Str(name@);
            let argc = arguments@.len() as u8;
            let c1 = lower_exprs(c, arguments@, at)->Ok_0;
            lemma_exprs_sound(c, arguments@, at, held);
            crate::steps::lemma_emit_call(c1, held, value, argc, at);
            lemma_longer_of_grows(c1, d);
            lemma_tail_layout(c, c1, d, host, held);
            let items = lemma_pure_exprs(c, arguments@, at, held, m);
            let idx = c1.current.constant_index(value);
            lemma_constant_found(c1.current, value);
            assert(d.current.constants == c1.current.add_constant(value).constants);
            assert(d.current.code[c1.offset()] == OpCode::Call.byte());
            assert(d.current.code[c1.offset() + 1] == idx as u8);
            assert(d.current.code[c1.offset() + 2] == argc);
            assert(host.constants[idx] == d.current.constants[idx]);
            assert(name_at(host, idx as u8) == Some(name@));
            let v = lemma_call_lands(m, items.0, c1.offset(), items.1, idx as u8, name@);
            (items.0 + 1, v)
        },
        _ => (0, Data::Nil),
    }
}

pub proof fn lemma_pure_array(
    c: CompilerModel,
    whole: Expr,
    line: usize,
    held: Set<int>,
    m: VmModel,
) -> (r: (nat, Data))
    requires
        tidy(c, held),
        whole is Array,
        pure(whole),
        lower_expr(c, whole, line) is Ok,
        lower_expr(c, whole, line)->Ok_0.current.code.len() <= CODE_LIMIT,
        ready(m),
        m.top().ip == c.offset(),
        hosts(m.top().chunk, lower_expr(c, whole, line)->Ok_0.current, c.offset()),
    ensures
        lands(m, r.0, lower_expr(c, whole, line)->Ok_0.offset(), seq![r.1]),
    decreases whole, 0nat,
{
    let d = lower_expr(c, whole, line)->Ok_0;
    let host = m.top().chunk;
    match whole {
        Expr::Array(elems) => {
            let c1 = lower_exprs(c, elems@, line)->Ok_0;
            lemma_exprs_sound(c, elems@, line, held);
            crate::steps::lemma_emit_u8(c1, held, OpCode::MakeArray, elems@.len() as u8, line);
            lemma_longer_of_grows(c1, d);
            lemma_tail_layout(c, c1, d, host, held);
            let items = lemma_pure_exprs(c, elems@, line, held, m);
            assert(d.current.code[c1.offset()] == OpCode::MakeArray.byte());
            assert(d.current.code[c1.offset() + 1] == elems@.len() as u8);
            let v = lemma_collect_lands(
                m,
                items.0,
                c1.offset(),
                items.1,
                OpCode::MakeArray,
                elems@.len(),
            );
            (items.0 + 1, v)
        },
        _ => (0, Data::Nil),
    }
}

pub proof fn lemma_pure_dict(
    c: CompilerModel,
    whole: Expr,
    line: usize,
    held: Set<int>,
    m: VmModel,
) -> (r: (nat, Data))
    requires
        tidy(c, held),
        whole is Dict,
        pure(whole),
        lower_expr(c, whole, line) is Ok,
        lower_expr(c, whole, line)->Ok_0.current.code.len() <= CODE_LIMIT,
        ready(m),
        m.top().ip == c.offset(),
        hosts(m.top().chunk, lower_expr(c, whole, line)->Ok_0.current, c.offset()),
    ensures
        lands(m, r.0, lower_expr(c, whole, line)->Ok_0.offset(), seq![r.1]),
    decreases whole, 0nat,
{
    let d = lower_expr(c, whole, line)->Ok_0;
    let host = m.top().chunk;
    match whole {
        Expr::Dict(pairs) => {
            let c1 = lower_pairs(c, pairs@, line)->Ok_0;
            lemma_pairs_sound(c, pairs@, line, held);
            crate::steps::lemma_emit_u8(c1, held, OpCode::MakeDict, pairs@.len() as u8, line);
            lemma_longer_of_grows(c1, d);
            lemma_tail_layout(c, c1, d, host, held);
            let items = lemma_pure_pairs(c, pairs@, line, held, m);
            assert(d.current.code[c1.offset()] == OpCode::MakeDict.byte());
            assert(d.current.code[c1.offset() + 1] == pairs@.len() as u8);
            let v = lemma_collect_lands(
                m,
                items.0,
                c1.offset(),
                items.1,
                OpCode::MakeDict,
                pairs@.len(),
            );
            (items.0 + 1, v)
        },
        _ => (0, Data::Nil),
    }
}

pub proof fn lemma_pure_unary(
    c: CompilerModel,
    whole: Expr,
    line: usize,
    held: Set<int>,
    m: VmModel,
) -> (r: (nat, Data))
    requires
        tidy(c, held),
        whole is Unary,
        pure(whole),
        lower_expr(c, whole, line) is Ok,
        lower_expr(c, whole, line)->Ok_0.current.code.len() <= CODE_LIMIT,
        ready(m),
        m.top().ip == c.offset(),
        hosts(m.top().chunk, lower_expr(c, whole, line)->Ok_0.current, c.offset()),
    ensures
        lands(m, r.0, lower_expr(c, whole, line)->Ok_0.offset(), seq![r.1]),
    decreases whole, 0nat,
{
    let d = lower_expr(c, whole, line)->Ok_0;
    let host = m.top().chunk;
    match whole {
        Expr::Unary { op, operand } => {
            let code = match op {
                UnaryOp::Not => OpCode::Not,
                UnaryOp::Neg => OpCode::Neg,
            };
            let c1 = lower_expr(c, *operand, line)->Ok_0;
            lemma_expr_sound(c, *operand, line, held);
            lemma_emit_plain(c1, held, code, line);
            lemma_longer_of_grows(c1, d);
            lemma_tail_layout(c, c1, d, host, held);
            let inner = lemma_pure_expr(c, *operand, line, held, m);
            assert(d.current.code[c1.offset()] == code.byte());
            let v = lemma_combine_lands(m, inner.0, c1.offset(), seq![inner.1], code);
            (inner.0 + 1, v)
        },
        _ => (0, Data::Nil),
    }
}

/// The instruction that combines the values of the two parts of an
/// expression with a binary operator, or of an indexing.
pub open spec fn joining(whole: Expr) -> OpCode {
    match whole {
        Expr::Binary { left, op, right } => binary_opcode(op),
        _ => OpCode::GetIndex,
    }
}

/// The first part of an expression with two parts.
pub open spec fn first_part(whole: Expr) -> Expr {
    match whole {
        Expr::Binary { left, op, right } => *left,
        Expr::Index { object, index } => *object,
        _ => whole,
    }
}

/// The second part of an expression with two parts.
pub open spec fn second_part(whole: Expr) -> Expr {
    match whole {
        Expr::Binary { left, op, right } => *right,
        Expr::Index { object, index } => *index,
        _ => whole,
    }
}

pub proof fn lemma_pure_binary(
    c: CompilerModel,
    whole: Expr,
    line: usize,
    held: Set<int>,
    m: VmModel,
) -> (r: (nat, Data))
    requires
        tidy(c, held),
        whole is Binary || whole is Index,
        pure(whole),
        lower_expr(c, whole, line) is Ok,
        lower_expr(c, whole, line)->Ok_0.current.code.len() <= CODE_LIMIT,
        ready(m),
        m.top().ip == c.offset(),
        hosts(m.top().chunk, lower_expr(c, whole, line)->Ok_0.current, c.offset()),
    ensures
        lands(m, r.0, lower_expr(c, whole, line)->Ok_0.offset(), seq![r.1]),
    decreases whole, 0nat,
{
    let d = lower_expr(c, whole, line)->Ok_0;
    let host = m.top().chunk;
    let left = first_part(whole);
    let right = second_part(whole);
    let code = joining(whole);
    assert(crate::machine::is_binary(code));
    assert(code.operand_len() == 0);
    let c1 = lower_expr(c, left, line)->Ok_0;
    let c2 = lower_expr(c1, right, line)->Ok_0;
    lemma_two_layout(c, left, right, code, line, held, host, d);
    let first = lemma_pure_expr(c, left, line, held, m);
    let m1 = arrived(m, c1.offset(), seq![first.1]);
    lemma_arrived_twice(m, c1.offset(), seq![first.1], c1.offset(), Seq::empty());
    let second = lemma_pure_expr(c1, right, line, held, m1);
    lemma_lands_then(
        m,
        first.0,
        c1.offset(),
        seq![first.1],
        second.0,
        c2.offset(),
        seq![second.1],
    );
    let v = lemma_combine_lands(
        m,
        first.0 + second.0,
        c2.offset(),
        seq![first.1] + seq![second.1],
        code,
    );
    (first.0 + second.0 + 1, v)
}

/// The code of two expressions and an instruction that combines their
/// values: where the parts stand in the code that hosts the whole.
pub proof fn lemma_two_layout(
    c: CompilerModel,
    left: Expr,
    right: Expr,
    op: OpCode,
    line: usize,
    held: Set<int>,
    host: ChunkModel,
    d: CompilerModel,
)
    requires
        tidy(c, held),
        op.operand_len() == 0,
        lower_expr(c, left, line) is Ok,
        lower_expr(lower_expr(c, left, line)->Ok_0, right, line) is Ok,
        d == lower_expr(lower_expr(c, left, line)->Ok_0, right, line)->Ok_0.emit_op(op, line),
        d.current.code.len() <= CODE_LIMIT,
        hosts(host, d.current, c.offset()),
    ensures
        ({
            let c1 = lower_expr(c, left, line)->Ok_0;
            let c2 = lower_expr(c1, right, line)->Ok_0;
            &&& tidy(c1, held)
            &&& c.offset() <= c1.offset() <= c2.offset()
            &&& d.offset() == c2.offset() + 1
            &&& c1.current.code.len() <= CODE_LIMIT
            &&& c2.current.code.len() <= CODE_LIMIT
            &&& hosts(host, c1.current, c.offset())
            &&& hosts(host, c2.current, c1.offset())
            &&& host.code[c2.offset()] == op.byte()
        }),
{
    let c1 = lower_expr(c, left, line)->Ok_0;
    let c2 = lower_expr(c1, right, line)->Ok_0;
    lemma_expr_sound(c, left, line, held);
    lemma_expr_sound(c1, right, line, held);
    lemma_emit_plain(c2, held, op, line);
    lemma_longer_of_grows(c2, d);
    lemma_hosts_before(host, c2, d, c.offset());
    lemma_hosts_before(host, c1, c2, c.offset());
    lemma_longer_len(c, c1);
    lemma_longer_len(c1, c2);
    assert(d.current.code[c2.offset()] == op.byte());
    assert(host.code[c2.offset()] == d.current.code[c2.offset()]);
}

/// The parts of the code of `and` or `or`, in the code that hosts the whole.
pub proof fn lemma_logical_parts(
    c: CompilerModel,
    left: Expr,
    op: LogicalOp,
    right: Expr,
    line: usize,
    held: Set<int>,
    host: ChunkModel,
)
    requires
        tidy(c, held),
        lower_expr(
            c,
            Expr::Logical { left: Box::new(left), op, right: Box::new(right) },
            line,
        ) is Ok,
        lower_expr(
            c,
            Expr::Logical { left: Box::new(left), op, right: Box::new(right) },
            line,
        )->Ok_0.current.code.len() <= CODE_LIMIT,
        hosts(
            host,
            lower_expr(
                c,
                Expr::Logical { left: Box::new(left), op, right: Box::new(right) },
                line,
            )->Ok_0.current,
            c.offset(),
        ),
    ensures
        ({
            let d = lower_expr(
                c,
                Expr::Logical { left: Box::new(left), op, right: Box::new(right) },
                line,
            )->Ok_0;
            let c1 = lower_expr(c, left, line)->Ok_0;
            let p = c1.emit_jump(peek_jump(op), line).emit_op(OpCode::Pop, line);
            let c3 = lower_expr(p, right, line)->Ok_0;
            &&& lower_expr(c, left, line) is Ok
            &&& lower_expr(p, right, line) is Ok
            &&& tidy(p, held.insert(c1.offset() + 1))
            &&& c.offset() <= c1.offset()
            &&& p.offset() == c1.offset() + 4
            &&& p.offset() <= c3.offset()
            &&& c3.offset() == d.offset()
            &&& c1.current.code.len() <= CODE_LIMIT
            &&& c3.current.code.len() <= CODE_LIMIT
            &&& hosts(host, c1.current, c.offset())
            &&& hosts(host, c3.current, p.offset())
            &&& forall|i: int| c1.offset() <= i < c1.offset() + 4 ==> host.code[i] == d.current.code[i]
        }),
{
    reveal(longer);
    let whole = Expr::Logical { left: Box::new(left), op, right: Box::new(right) };
    let d = lower_expr(c, whole, line)->Ok_0;
    let jump = peek_jump(op);
    lemma_expr_sound(c, left, line, held);
    let c1 = lower_expr(c, left, line)->Ok_0;
    let s = c1.offset() + 1;
    let held1 = held.insert(s);
    lemma_emit_jump(c1, held, jump, line);
    let j = c1.emit_jump(jump, line);
    lemma_emit_plain(j, held1, OpCode::Pop, line);
    let p = j.emit_op(OpCode::Pop, line);
    lemma_expr_sound(p, right, line, held1);
    let c3 = lower_expr(p, right, line)->Ok_0;
    lemma_patch_here(c3, held, s);
    assert(grows(c, c1));
    assert(grows(c1, j));
    assert(grows(j, p));
    assert(grows(p, c3));
    assert forall|i: int| c.offset() <= i < c1.offset() implies host.code[i] == c1.current.code[i] by {
        assert(c1.current.code[i] == j.current.code[i]);
        assert(j.current.code[i] == p.current.code[i]);
        assert(p.current.code[i] == c3.current.code[i]);
        assert(c3.current.code[i] == d.current.code[i]);
    }
    assert forall|i: int| p.offset() <= i < c3.offset() implies host.code[i] == c3.current.code[i] by {
        assert(c3.current.code[i] == d.current.code[i]);
    }
}

/// After landing behind the left operand of `and` or `or` whose value
/// decides, one step lands behind the whole expression with that value.
proof fn lemma_decided_lands(
    c: CompilerModel,
    left: Expr,
    op: LogicalOp,
    right: Expr,
    line: usize,
    held: Set<int>,
    m: VmModel,
    n: nat,
    v: Data,
)
    requires
        tidy(c, held),
        lower_expr(
            c,
            Expr::Logical { left: Box::new(left), op, right: Box::new(right) },
            line,
        ) is Ok,
        lower_expr(
            c,
            Expr::Logical { left: Box::new(left), op, right: Box::new(right) },
            line,
        )->Ok_0.current.code.len() <= CODE_LIMIT,
        ready(m),
        hosts(
            m.top().chunk,
            lower_expr(
                c,
                Expr::Logical { left: Box::new(left), op, right: Box::new(right) },
                line,
            )->Ok_0.current,
            lower_expr(c, left, line)->Ok_0.offset(),
        ),
        lower_expr(c, left, line)->Ok_0.offset() >= 0,
        lands(m, n, lower_expr(c, left, line)->Ok_0.offset(), seq![v]),
    ensures
        decides(op, v) ==> lands(
            m,
            n + 1,
            lower_expr(
                c,
                Expr::Logical { left: Box::new(left), op, right: Box::new(right) },
                line,
            )->Ok_0.offset(),
            seq![v],
        ),
        !decides(op, v) ==> lands(
            m,
            n + 2,
            lower_expr(c, left, line)->Ok_0.offset() + 4,
            Seq::empty(),
        ),
{
    let whole = Expr::Logical { left: Box::new(left), op, right: Box::new(right) };
    let d = lower_expr(c, whole, line)->Ok_0;
    let at = lower_expr(c, left, line)->Ok_0.offset();
    lemma_logical_layout(c, left, op, right, line, held);
    let m1 = arrived(m, at, seq![v]);
    lemma_arrived_twice(m, at, seq![v], at, Seq::empty());
    assert(m1.stack.last() == v);
    lemma_short_circuit(c, left, op, right, line, held, m1);
    lemma_run_one(m1);
    if decides(op, v) {
        let target = m1.at(d.offset());
        let want = arrived(m, d.offset(), seq![v]);
        assert(target.frames =~= want.frames);
        assert(target.stack =~= want.stack);
        lemma_lands_finish(m, n, at, seq![v], d.offset(), seq![v]);
    } else {
        let m2 = m1.at(at + 3);
        let want2 = arrived(m, at + 3, seq![v]);
        assert(m2.frames =~= want2.frames);
        assert(m2.stack =~= want2.stack);
        lemma_lands_finish(m, n, at, seq![v], at + 3, seq![v]);
        lemma_arrived_twice(m, at + 3, seq![v], at + 3, Seq::empty());
        let pop = seq![OpCode::Pop.byte()];
        assert(holds_bytes(m2.top().chunk.code, at + 3, pop)) by {
            assert forall|k: int| 0 <= k < pop.len() implies m2.top().chunk.code[at + 3 + k]
                == pop[k] by {}
        }
        assert(m2.stack =~= m.stack.push(v));
        lemma_step_pop(m2, m.stack, v);
        let m3 = m2.at(at + 4).with_stack(m.stack);
        let want3 = arrived(m, at + 4, Seq::empty());
        assert(m3.frames =~= want3.frames);
        assert(m3.stack =~= want3.stack);
        lemma_lands_finish(m, n + 1, at + 3, seq![v], at + 4, Seq::empty());
    }
}

/// The code of `and` or `or` between two expressions that call nothing
/// but built-in functions which ask for nothing.
pub proof fn lemma_pure_logical(
    c: CompilerModel,
    whole: Expr,
    line: usize,
    held: Set<int>,
    m: VmModel,
) -> (r: (nat, Data))
    requires
        tidy(c, held),
        whole is Logical,
        pure(whole),
        lower_expr(c, whole, line) is Ok,
        lower_expr(c, whole, line)->Ok_0.current.code.len() <= CODE_LIMIT,
        ready(m),
        m.top().ip == c.offset(),
        hosts(m.top().chunk, lower_expr(c, whole, line)->Ok_0.current, c.offset()),
    ensures
        lands(m, r.0, lower_expr(c, whole, line)->Ok_0.offset(), seq![r.1]),
    decreases whole, 0nat,
{
    let d = lower_expr(c, whole, line)->Ok_0;
    let host = m.top().chunk;
    match whole {
        Expr::Logical { left, op, right } => {
            assert(whole == (Expr::Logical { left: Box::new(*left), op, right: Box::new(*right) }));
            lemma_logical_parts(c, *left, op, *right, line, held, host);
            let c1 = lower_expr(c, *left, line)->Ok_0;
            let at = c1.offset();
            let p = c1.emit_jump(peek_jump(op), line).emit_op(OpCode::Pop, line);
            let first = lemma_pure_expr(c, *left, line, held, m);
            assert(hosts(host, d.current, at));
            lemma_decided_lands(c, *left, op, *right, line, held, m, first.0, first.1);
            if decides(op, first.1) {
                (first.0 + 1, first.1)
            } else {
                let m3 = arrived(m, at + 4, Seq::empty());
                lemma_arrived_twice(m, at + 4, Seq::empty(), at + 4, Seq::empty());
                let second = lemma_pure_expr(p, *right, line, held.insert(at + 1), m3);
                lemma_lands_then(
                    m,
                    first.0 + 2,
                    at + 4,
                    Seq::empty(),
                    second.0,
                    d.offset(),
                    seq![second.1],
                );
                assert(Seq::<Data>::empty() + seq![second.1] =~= seq![second.1]);
                (first.0 + 2 + second.0, second.1)
            }
        },
        _ => (0, Data::Nil),
    }
}

/// An expression without side effects that is evaluated and discarded
/// leaves no trace.  Such an expression calls nothing but built-in
/// functions that ask the outside world for nothing; a function of the
/// program may print.  The steps of its statement tell the driver nothing,
/// so that nothing is printed and nothing is asked for, and they lead to
/// the state in which the machine stands behind the statement, with its
/// stack, its variables, its frames and its functions as they were,
/// unless an error stops them.  The chunk that runs holds the code of the
/// statement, and the constants of the compilation as the first of its
/// own.
pub proof fn lemma_discarded_expression(
    c: CompilerModel,
    expr: Expr,
    line: usize,
    held: Set<int>,
    m: VmModel,
) -> (n: nat)
    requires
        tidy(c, held),
        pure(expr),
        lower_stmt(c, Stmt::Expression { expr, line }) is Ok,
        lower_stmt(c, Stmt::Expression { expr, line })->Ok_0.current.code.len() <= CODE_LIMIT,
        ready(m),
        m.top().ip == c.offset(),
        hosts(
            m.top().chunk,
            lower_stmt(c, Stmt::Expression { expr, line })->Ok_0.current,
            c.offset(),
        ),
    ensures
        crate::machine::run_model(m, n) is Err || crate::machine::run_model(m, n) == Ok::<
            (VmModel, Signal),
            crate::error::ErrorModel,
        >((m.at(lower_stmt(c, Stmt::Expression { expr, line })->Ok_0.offset()), Signal::Continue)),
{
    let d = lower_stmt(c, Stmt::Expression { expr, line })->Ok_0;
    let host = m.top().chunk;
    let c1 = lower_expr(c, expr, line)->Ok_0;
    lemma_expr_sound(c, expr, line, held);
    lemma_emit_plain(c1, held, OpCode::Pop, line);
    lemma_longer_of_grows(c1, d);
    lemma_tail_layout(c, c1, d, host, held);
    let r = lemma_pure_expr(c, expr, line, held, m);
    let at = c1.offset();
    let m1 = arrived(m, at, seq![r.1]);
    lemma_arrived_twice(m, at, seq![r.1], at, Seq::empty());
    assert(d.current.code[at] == OpCode::Pop.byte());
    let pop = seq![OpCode::Pop.byte()];
    assert(holds_bytes(m1.top().chunk.code, at, pop)) by {
        assert forall|k: int| 0 <= k < pop.len() implies m1.top().chunk.code[at + k] == pop[k] by {}
    }
    assert(m1.stack =~= m.stack.push(r.1));
    lemma_step_pop(m1, m.stack, r.1);
    let after = m1.at(at + 1).with_stack(m.stack);
    let want = m.at(d.offset());
    assert(after.frames =~= want.frames);
    assert(after.stack =~= want.stack);
    if crate::machine::run_model(m, r.0) is Err {
        lemma_run_err(m, r.0, 1);
    } else {
        lemma_run_then(m, r.0, m1, 1);
    }
    r.0 + 1
}

} // verus!

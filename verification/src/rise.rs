//! How the heights of the stack combine over the steps of a compilation.

use vstd::prelude::*;
use crate::chunk::{high_byte, low_byte, target_of};
use crate::even::{even, kept, lemma_even_emit, lemma_even_patch, raised};
use crate::frames::longer;
use crate::layout::{agree, operand_site};
use crate::level::{height_after, levels};
use crate::lowering::CompilerModel;
use crate::opcode::{OpCode, lemma_decode_inverts_byte};
use crate::shape::{CODE_LIMIT, lemma_target_bytes, tidy, tidy_code, waiting};
use crate::value::Data;

verus! {

/// Whether the code of `d`, with the heights `later`, continues the code
/// of `c`, with the heights `hs`, and leaves the stack higher by `by`
/// than the code of `c` left it; this is asked of code within the limit
/// only.
pub open spec fn rises(
    c: CompilerModel,
    d: CompilerModel,
    hs: Seq<int>,
    later: Seq<int>,
    held: Set<int>,
    by: int,
    main: bool,
) -> bool {
    d.current.code.len() <= CODE_LIMIT ==> {
        &&& even(d, later, held, main)
        &&& kept(hs, later)
        &&& hs.len() == c.offset() + 1
        &&& later.len() == d.offset() + 1
        &&& later[d.offset()] == hs[c.offset()] + by
    }
}

/// Code continues itself.
pub proof fn lemma_rises_refl(c: CompilerModel, hs: Seq<int>, held: Set<int>, main: bool)
    requires
        even(c, hs, held, main),
    ensures
        rises(c, c, hs, hs, held, 0, main),
{
    reveal(levels);
}

pub proof fn lemma_rises_trans(
    a: CompilerModel,
    b: CompilerModel,
    c: CompilerModel,
    hs: Seq<int>,
    mid: Seq<int>,
    later: Seq<int>,
    held: Set<int>,
    first: int,
    second: int,
    main: bool,
)
    requires
        rises(a, b, hs, mid, held, first, main),
        rises(b, c, mid, later, held, second, main),
        a.offset() <= b.offset() <= c.offset(),
    ensures
        rises(a, c, hs, later, held, first + second, main),
{
}

/// The change of the height that an instruction makes.
pub open spec fn change(op: OpCode, a: u8, b: u8) -> int {
    height_after(op, a, b, 0)
}

/// An instruction after code that continues the code of `c`.
pub proof fn lemma_then(
    c: CompilerModel,
    e: CompilerModel,
    d: CompilerModel,
    hs: Seq<int>,
    mid: Seq<int>,
    held: Set<int>,
    more: Set<int>,
    op: OpCode,
    a: u8,
    b: u8,
    by: int,
    main: bool,
)
    requires
        tidy(e, held),
        rises(c, e, hs, mid, held, by, main),
        c.offset() <= e.offset(),
        d.loops == e.loops,
        agree(e.current.code, d.current.code, 0, e.offset()),
        d.current.code.len() == e.current.code.len() + 1 + op.operand_len(),
        d.current.code[e.offset()] == op.byte(),
        op.operand_len() >= 1 ==> d.current.code[e.offset() + 1] == a,
        op.operand_len() >= 2 ==> d.current.code[e.offset() + 2] == b,
        more == held || (op.is_jump() && more == held.insert(e.offset() + 1)),
        d.current.code.len() <= CODE_LIMIT ==> {
            &&& op == OpCode::Return ==> hs[c.offset()] + by == 1 && !main
            &&& op == OpCode::ReturnNone ==> hs[c.offset()] + by == 0 && !main
            &&& op == OpCode::Halt ==> hs[c.offset()] + by == 0 && main
            &&& op.is_jump() && more == held ==> 0 <= target_of(a, b) <= e.offset()
                && mid[target_of(a, b)] == hs[c.offset()] + by + change(op, a, b)
        },
    ensures
        rises(c, d, hs, raised(mid, op, a, b), more, by + change(op, a, b), main),
{
    if d.current.code.len() <= CODE_LIMIT {
        assert(mid.last() == mid[e.offset()]);
        assert(height_after(op, a, b, mid.last()) == mid.last() + change(op, a, b));
        lemma_even_emit(e, d, mid, held, more, op, a, b, main);
    }
}

/// An instruction without operands after code that continues the code of `c`.
pub proof fn lemma_rise_plain(
    c: CompilerModel,
    e: CompilerModel,
    hs: Seq<int>,
    mid: Seq<int>,
    held: Set<int>,
    op: OpCode,
    line: usize,
    by: int,
    main: bool,
)
    requires
        tidy(e, held),
        rises(c, e, hs, mid, held, by, main),
        c.offset() <= e.offset(),
        op.operand_len() == 0,
        e.offset() < CODE_LIMIT ==> {
            &&& op == OpCode::Return ==> hs[c.offset()] + by == 1 && !main
            &&& op == OpCode::ReturnNone ==> hs[c.offset()] + by == 0 && !main
            &&& op == OpCode::Halt ==> hs[c.offset()] + by == 0 && main
        },
    ensures
        rises(c, e.emit_op(op, line), hs, raised(mid, op, 0, 0), held, by + change(op, 0, 0), main),
{
    lemma_then(c, e, e.emit_op(op, line), hs, mid, held, held, op, 0, 0, by, main);
}

/// An instruction with one operand byte after code that continues the code of `c`.
pub proof fn lemma_rise_u8(
    c: CompilerModel,
    e: CompilerModel,
    hs: Seq<int>,
    mid: Seq<int>,
    held: Set<int>,
    op: OpCode,
    operand: u8,
    line: usize,
    by: int,
    main: bool,
)
    requires
        tidy(e, held),
        rises(c, e, hs, mid, held, by, main),
        c.offset() <= e.offset(),
        op.operand_len() == 1,
    ensures
        rises(
            c,
            e.emit_op_u8(op, operand, line),
            hs,
            raised(mid, op, operand, 0),
            held,
            by + change(op, operand, 0),
            main,
        ),
{
    let d = e.emit_op_u8(op, operand, line);
    lemma_then(c, e, d, hs, mid, held, held, op, operand, 0, by, main);
}

/// The operand of an instruction that names a constant.
pub open spec fn index_of(e: CompilerModel, value: Data) -> u8 {
    e.current.constant_index(value) as u8
}

/// A constant and its instruction after code that continues the code of `c`.
pub proof fn lemma_rise_constant(
    c: CompilerModel,
    e: CompilerModel,
    hs: Seq<int>,
    mid: Seq<int>,
    held: Set<int>,
    op: OpCode,
    value: Data,
    line: usize,
    by: int,
    main: bool,
)
    requires
        tidy(e, held),
        rises(c, e, hs, mid, held, by, main),
        c.offset() <= e.offset(),
        op == OpCode::PushConst || op == OpCode::Load || op == OpCode::Store,
        e.emit_with_constant(op, value, line) is Ok,
    ensures
        rises(
            c,
            e.emit_with_constant(op, value, line)->Ok_0,
            hs,
            raised(mid, op, index_of(e, value), 0),
            held,
            by + change(op, 0, 0),
            main,
        ),
{
    let d = e.emit_with_constant(op, value, line)->Ok_0;
    lemma_then(c, e, d, hs, mid, held, held, op, index_of(e, value), 0, by, main);
}

/// A call after the code of its arguments.
pub proof fn lemma_rise_call(
    c: CompilerModel,
    e: CompilerModel,
    hs: Seq<int>,
    mid: Seq<int>,
    held: Set<int>,
    value: Data,
    argc: u8,
    line: usize,
    by: int,
    main: bool,
)
    requires
        tidy(e, held),
        rises(c, e, hs, mid, held, by, main),
        c.offset() <= e.offset(),
        e.emit_with_constant(OpCode::Call, value, line) is Ok,
    ensures
        rises(
            c,
            e.emit_with_constant(OpCode::Call, value, line)->Ok_0.emit_byte(argc, line),
            hs,
            raised(mid, OpCode::Call, index_of(e, value), argc),
            held,
            by + 1 - argc,
            main,
        ),
{
    let d = e.emit_with_constant(OpCode::Call, value, line)->Ok_0.emit_byte(argc, line);
    lemma_then(c, e, d, hs, mid, held, held, OpCode::Call, index_of(e, value), argc, by, main);
}

/// A jump with a placeholder after code that continues the code of `c`:
/// the placeholder is held.
pub proof fn lemma_rise_jump(
    c: CompilerModel,
    e: CompilerModel,
    hs: Seq<int>,
    mid: Seq<int>,
    held: Set<int>,
    op: OpCode,
    line: usize,
    by: int,
    main: bool,
)
    requires
        tidy(e, held),
        rises(c, e, hs, mid, held, by, main),
        c.offset() <= e.offset(),
        op.is_jump(),
    ensures
        rises(
            c,
            e.emit_jump(op, line),
            hs,
            raised(mid, op, 0, 0),
            held.insert(e.offset() + 1),
            by + change(op, 0, 0),
            main,
        ),
        e.emit_jump(op, line).offset() <= CODE_LIMIT ==> raised(mid, op, 0, 0)[e.offset()]
            == hs[c.offset()] + by,
{
    let d = e.emit_jump(op, line);
    assert(high_byte(0xFFFF) == 0xFF && low_byte(0xFFFF) == 0xFF);
    if d.current.code.len() <= CODE_LIMIT {
        let site = e.offset() + 1;
        assert(!held.contains(site)) by {
            reveal(tidy_code);
            if held.contains(site) {
                assert(waiting(e, held).contains(site));
                assert(operand_site(e.current.code, site));
            }
        }
        assert(held.insert(site).contains(site));
    }
    lemma_then(c, e, d, hs, mid, held, held.insert(e.offset() + 1), op, 0xFF, 0xFF, by, main);
    assert(raised(mid, op, 0xFF, 0xFF) == raised(mid, op, 0, 0));
}

/// A jump back to a place at which the stack is as high as it is now.
pub proof fn lemma_rise_jump_to(
    c: CompilerModel,
    e: CompilerModel,
    hs: Seq<int>,
    mid: Seq<int>,
    held: Set<int>,
    target: int,
    line: usize,
    by: int,
    main: bool,
)
    requires
        tidy(e, held),
        rises(c, e, hs, mid, held, by, main),
        c.offset() <= e.offset(),
        0 <= target <= e.offset(),
        e.offset() < CODE_LIMIT ==> mid[target] == hs[c.offset()] + by,
    ensures
        rises(
            c,
            e.emit_jump_to(OpCode::Jump, target, line),
            hs,
            raised(mid, OpCode::Jump, 0, 0),
            held,
            by,
            main,
        ),
{
    let d = e.emit_jump_to(OpCode::Jump, target, line);
    let a = high_byte(((target % 0x1_0000) as u16) as int);
    let b = low_byte(((target % 0x1_0000) as u16) as int);
    if d.current.code.len() <= CODE_LIMIT {
        lemma_target_bytes(target);
        assert((target % 0x1_0000) as u16 == target);
    }
    lemma_then(c, e, d, hs, mid, held, held, OpCode::Jump, a, b, by, main);
    assert(raised(mid, OpCode::Jump, a, b) == raised(mid, OpCode::Jump, 0, 0));
}

/// A jump that was put at the end of the code of `j` stands in all code
/// that comes after, at its height.
pub proof fn lemma_site_kept(
    j: CompilerModel,
    e: CompilerModel,
    hs: Seq<int>,
    later: Seq<int>,
    op: OpCode,
    at: int,
)
    requires
        longer(j, e),
        e.current.code.len() <= CODE_LIMIT,
        kept(hs, later),
        0 <= at < j.offset(),
        at < hs.len(),
        j.current.code[at] == op.byte(),
    ensures
        OpCode::decode(e.current.code[at]) == Some(op),
        later[at] == hs[at],
{
    reveal(longer);
    lemma_decode_inverts_byte(op, op.byte());
    assert(j.current.code[at] == e.current.code[at]);
}

/// A placeholder that is held is given the end of the code as its
/// target, where the stack is as high as its jump leaves it.
pub proof fn lemma_rise_patch(
    c: CompilerModel,
    e: CompilerModel,
    hs: Seq<int>,
    mid: Seq<int>,
    held: Set<int>,
    site: int,
    by: int,
    main: bool,
)
    requires
        tidy(e, held.insert(site)),
        rises(c, e, hs, mid, held.insert(site), by, main),
        e.offset() <= CODE_LIMIT ==> mid[e.offset()] == height_after(
            OpCode::decode(e.current.code[site - 1])->0,
            0,
            0,
            mid[site - 1],
        ),
    ensures
        rises(c, e.patch_here(site), hs, mid, held, by, main),
{
    if e.offset() <= CODE_LIMIT {
        lemma_even_patch(e, mid, held, site, main);
        crate::steps::lemma_patch_here(e, held, site);
    }
}

} // verus!

//! The steps of which every compilation is made, and what each keeps
//! true of the code.

use vstd::prelude::*;
use crate::chunk::{ChunkModel};
use crate::layout::{
    boundary,
    lemma_extend_boundary,
    lemma_not_inside,
    operand_site,
    settled,
    target_at,
};
use crate::lowering::{CompilerModel, patch_all};
use crate::opcode::{OpCode, lemma_decode_inverts_byte};
use crate::shape::{
    CODE_LIMIT,
    grows,
    in_loop,
    lemma_patch_all,
    lemma_patch_all_elsewhere,
    lemma_patch_all_len,
    lemma_patch_all_settles,
    lemma_target_bytes,
    lemma_tidy_append,
    lemma_tidy_append_jump,
    lemma_tidy_layout,
    lemma_tidy_patch,
    lemma_tidy_shrink,
    lemma_waiting_same,
    recorded,
    same_layout,
    tidy,
    tidy_code,
    waiting,
};
use crate::value::Data;

verus! {

/// A single instruction without operands that is put at the end.
pub proof fn lemma_emit_plain(c: CompilerModel, held: Set<int>, op: OpCode, line: usize)
    requires
        tidy(c, held),
        op.operand_len() == 0,
    ensures
        c.emit_op(op, line).current.code.len() == c.current.code.len() + 1,
        tidy(c.emit_op(op, line), held),
        grows(c, c.emit_op(op, line)),
        c.emit_op(op, line).loops == c.loops,
{
    let d = c.emit_op(op, line);
    lemma_waiting_same(c, d, held);
    lemma_decode_inverts_byte(op, op.byte());
    if d.current.code.len() <= CODE_LIMIT {
        lemma_tidy_append(c.current.code, d.current.code, waiting(c, held));
    }
}

/// An instruction with one operand byte that is put at the end.
pub proof fn lemma_emit_u8(c: CompilerModel, held: Set<int>, op: OpCode, operand: u8, line: usize)
    requires
        tidy(c, held),
        op.operand_len() == 1,
    ensures
        c.emit_op_u8(op, operand, line).current.code.len() == c.current.code.len() + 2,
        tidy(c.emit_op_u8(op, operand, line), held),
        grows(c, c.emit_op_u8(op, operand, line)),
        c.emit_op_u8(op, operand, line).loops == c.loops,
{
    let d = c.emit_op_u8(op, operand, line);
    lemma_waiting_same(c, d, held);
    lemma_decode_inverts_byte(op, op.byte());
    if d.current.code.len() <= CODE_LIMIT {
        lemma_tidy_append(c.current.code, d.current.code, waiting(c, held));
    }
}

/// A constant that is added, and an instruction with its index as operand.
pub proof fn lemma_emit_constant(
    c: CompilerModel,
    held: Set<int>,
    op: OpCode,
    value: Data,
    line: usize,
)
    requires
        tidy(c, held),
        op.operand_len() == 1,
        c.emit_with_constant(op, value, line) is Ok,
    ensures
        c.emit_with_constant(op, value, line)->Ok_0.current.code.len() == c.current.code.len() + 2,
        tidy(c.emit_with_constant(op, value, line)->Ok_0, held),
        grows(c, c.emit_with_constant(op, value, line)->Ok_0),
        c.emit_with_constant(op, value, line)->Ok_0.loops == c.loops,
{
    let d = c.emit_with_constant(op, value, line)->Ok_0;
    let mid = CompilerModel { current: c.current.add_constant(value), ..c };
    lemma_waiting_same(c, mid, held);
    lemma_emit_u8(mid, held, op, c.current.constant_index(value) as u8, line);
}

/// A call: the name is added as a constant, and the instruction is put
/// at the end with the name's index and the number of arguments.
pub proof fn lemma_emit_call(c: CompilerModel, held: Set<int>, value: Data, argc: u8, line: usize)
    requires
        tidy(c, held),
        c.emit_with_constant(OpCode::Call, value, line) is Ok,
    ensures
        c.emit_with_constant(OpCode::Call, value, line)->Ok_0.emit_byte(
            argc,
            line,
        ).current.code.len() == c.current.code.len() + 3,
        tidy(c.emit_with_constant(OpCode::Call, value, line)->Ok_0.emit_byte(argc, line), held),
        grows(c, c.emit_with_constant(OpCode::Call, value, line)->Ok_0.emit_byte(argc, line)),
        c.emit_with_constant(OpCode::Call, value, line)->Ok_0.emit_byte(argc, line).loops
            == c.loops,
{
    let d = c.emit_with_constant(OpCode::Call, value, line)->Ok_0.emit_byte(argc, line);
    lemma_waiting_same(c, d, held);
    lemma_decode_inverts_byte(OpCode::Call, OpCode::Call.byte());
    if d.current.code.len() <= CODE_LIMIT {
        lemma_tidy_append(c.current.code, d.current.code, waiting(c, held));
    }
}

/// A jump with a placeholder that is put at the end: the placeholder is
/// held from then on.
pub proof fn lemma_emit_jump(c: CompilerModel, held: Set<int>, op: OpCode, line: usize)
    requires
        tidy(c, held),
        op.is_jump(),
    ensures
        c.emit_jump(op, line).current.code.len() == c.current.code.len() + 3,
        tidy(c.emit_jump(op, line), held.insert(c.current.code.len() as int + 1)),
        grows(c, c.emit_jump(op, line)),
        c.emit_jump(op, line).loops == c.loops,
{
    let d = c.emit_jump(op, line);
    let site: int = c.current.code.len() as int + 1;
    lemma_decode_inverts_byte(op, op.byte());
    if d.current.code.len() <= CODE_LIMIT {
        lemma_tidy_append_jump(c.current.code, d.current.code, waiting(c, held));
        assert(waiting(d, held.insert(site)) =~= waiting(c, held).insert(site));
    }
}

/// A jump to a place that is known, put at the end.
pub proof fn lemma_emit_jump_to(c: CompilerModel, held: Set<int>, target: int, line: usize)
    requires
        tidy(c, held),
        0 <= target <= c.current.code.len(),
        c.current.code.len() <= CODE_LIMIT ==> boundary(c.current.code, target),
    ensures
        c.emit_jump_to(OpCode::Jump, target, line).current.code.len() == c.current.code.len() + 3,
        tidy(c.emit_jump_to(OpCode::Jump, target, line), held),
        grows(c, c.emit_jump_to(OpCode::Jump, target, line)),
        c.emit_jump_to(OpCode::Jump, target, line).loops == c.loops,
{
    reveal(tidy_code);
    let d = c.emit_jump_to(OpCode::Jump, target, line);
    let a = c.current.code;
    let b = d.current.code;
    let at = a.len() as int;
    lemma_decode_inverts_byte(OpCode::Jump, OpCode::Jump.byte());
    lemma_waiting_same(c, d, held);
    if b.len() <= CODE_LIMIT {
        let w = waiting(c, held);
        lemma_tidy_append_jump(a, b, w);
        lemma_target_bytes(target);
        assert((target % 0x1_0000) as u16 == target);
        assert(target_at(b, at) == target);
        lemma_extend_boundary(a, b, target);
        assert(settled(b, at));
        assert forall|p: int| #[trigger] w.insert(at + 1).contains(p) && !w.contains(
            p,
        ) implies settled(b, p - 1) by {}
        lemma_tidy_shrink(b, w.insert(at + 1), w);
    }
}

/// A placeholder that is held is given the end of the code as its target.
pub proof fn lemma_patch_here(c: CompilerModel, held: Set<int>, site: int)
    requires
        tidy(c, held.insert(site)),
    ensures
        c.patch_here(site).current.code.len() == c.current.code.len(),
        tidy(c.patch_here(site), held),
        c.patch_here(site).loops == c.loops,
        c.patch_here(site).functions == c.functions,
        c.patch_here(site).current.constants == c.current.constants,
        c.patch_here(site).current.name == c.current.name,
        c.patch_here(site).current.param_count == c.current.param_count,
        forall|i: int|
            0 <= i < c.current.code.len() && i != site && i != site + 1 ==> c.patch_here(
                site,
            ).current.code[i] == c.current.code[i],
        c.current.code.len() <= CODE_LIMIT ==> forall|to: int|
            boundary(c.patch_here(site).current.code, to) == boundary(c.current.code, to),
{
    reveal(tidy_code);
    let d = c.patch_here(site);
    let code = c.current.code;
    if code.len() <= CODE_LIMIT {
        let w = waiting(c, held.insert(site));
        assert(w.contains(site));
        lemma_tidy_patch(code, w, site, code.len() as int);
        let fewer = waiting(d, held);
        assert forall|p: int| #[trigger] w.contains(p) && !fewer.contains(p) implies settled(
            d.current.code,
            p - 1,
        ) by {
            assert(p == site);
        }
        lemma_tidy_shrink(d.current.code, w, fewer);
    }
}

/// A loop that opens records nothing.
pub proof fn lemma_push_loop(c: CompilerModel, held: Set<int>)
    requires
        tidy(c, held),
    ensures
        tidy(c.push_loop(), held),
        c.push_loop().current == c.current,
        c.push_loop().functions == c.functions,
        forall|p: int| recorded(c.push_loop().loops, p) == recorded(c.loops, p),
{
    let d = c.push_loop();
    assert forall|p: int| recorded(d.loops, p) == recorded(c.loops, p) by {
        if recorded(d.loops, p) {
            let i = choose|i: int| 0 <= i < d.loops.len() && in_loop(#[trigger] d.loops[i], p);
            assert(i < c.loops.len());
            assert(d.loops[i] == c.loops[i]);
            assert(in_loop(c.loops[i], p));
        }
        if recorded(c.loops, p) {
            let i = choose|i: int| 0 <= i < c.loops.len() && in_loop(#[trigger] c.loops[i], p);
            assert(d.loops[i] == c.loops[i]);
            assert(in_loop(d.loops[i], p));
        }
    }
    assert(waiting(d, held) =~= waiting(c, held));
}

/// The state with the placeholder at `site` recorded as a `break` or a
/// `continue` of the innermost loop.
pub open spec fn record(c: CompilerModel, site: usize, is_continue: bool) -> CompilerModel {
    if is_continue {
        c.push_continue(site)
    } else {
        c.push_break(site)
    }
}

/// A placeholder that is held is recorded with the innermost loop.
pub proof fn lemma_record(c: CompilerModel, held: Set<int>, site: usize, is_continue: bool)
    requires
        tidy(c, held.insert(site as int)),
        c.loops.len() > 0,
    ensures
        tidy(record(c, site, is_continue), held),
        record(c, site, is_continue).current == c.current,
        record(c, site, is_continue).functions == c.functions,
        record(c, site, is_continue).loops.len() == c.loops.len(),
        forall|i: int|
            0 <= i < c.loops.len() - 1 ==> record(c, site, is_continue).loops[i] == c.loops[i],
        forall|p: int|
            in_loop(record(c, site, is_continue).loops.last(), p) <==> in_loop(c.loops.last(), p)
                || p == site,
        forall|p: int|
            recorded(record(c, site, is_continue).loops, p) <==> recorded(c.loops, p) || p == site,
{
    let d = record(c, site, is_continue);
    let top = c.loops.last();
    let new_top = d.loops.last();
    assert forall|p: int| in_loop(new_top, p) <==> in_loop(top, p) || p == site by {
        if is_continue {
            lemma_contains_push(top.continue_jumps, site, p);
        } else {
            lemma_contains_push(top.break_jumps, site, p);
        }
    }
    assert forall|p: int| recorded(d.loops, p) <==> recorded(c.loops, p) || p == site by {
        if recorded(d.loops, p) {
            let i = choose|i: int| 0 <= i < d.loops.len() && in_loop(#[trigger] d.loops[i], p);
            if i < c.loops.len() - 1 {
                assert(d.loops[i] == c.loops[i]);
                assert(in_loop(c.loops[i], p));
            } else if p != site {
                assert(in_loop(c.loops[c.loops.len() - 1], p));
            }
        }
        if recorded(c.loops, p) {
            let i = choose|i: int| 0 <= i < c.loops.len() && in_loop(#[trigger] c.loops[i], p);
            if i < c.loops.len() - 1 {
                assert(d.loops[i] == c.loops[i]);
                assert(in_loop(d.loops[i], p));
            } else {
                assert(in_loop(d.loops[d.loops.len() - 1], p));
            }
        }
        if p == site {
            assert(in_loop(d.loops[d.loops.len() - 1], p));
        }
    }
    assert(waiting(d, held) =~= waiting(c, held.insert(site as int)));
}

proof fn lemma_contains_push(s: Seq<usize>, x: usize, p: int)
    ensures
        0 <= p <= usize::MAX ==> (s.push(x).contains(p as usize) <==> s.contains(p as usize) || p
            == x),
{
    if 0 <= p <= usize::MAX {
        let y = p as usize;
        if s.push(x).contains(y) {
            let j = choose|j: int| 0 <= j < s.push(x).len() && s.push(x)[j] == y;
            if j < s.len() {
                assert(s[j] == y);
            }
        }
        if s.contains(y) {
            let j = choose|j: int| 0 <= j < s.len() && s[j] == y;
            assert(s.push(x)[j] == y);
        }
        if p == x {
            assert(s.push(x)[s.len() as int] == y);
        }
    }
}

/// The placeholders that the innermost loop has recorded are operands.
pub proof fn lemma_sites_of_loop(c: CompilerModel, held: Set<int>)
    requires
        tidy_code(c.current.code, waiting(c, held)),
        c.loops.len() > 0,
    ensures
        forall|j: int|
            0 <= j < c.loops.last().break_jumps.len() ==> operand_site(
                c.current.code,
                #[trigger] c.loops.last().break_jumps[j] as int,
            ),
        forall|j: int|
            0 <= j < c.loops.last().continue_jumps.len() ==> operand_site(
                c.current.code,
                #[trigger] c.loops.last().continue_jumps[j] as int,
            ),
{
    reveal(tidy_code);
    let top = c.loops.last();
    let w = waiting(c, held);
    assert forall|j: int| 0 <= j < top.break_jumps.len() implies operand_site(
        c.current.code,
        #[trigger] top.break_jumps[j] as int,
    ) by {
        let s = top.break_jumps[j];
        assert(top.break_jumps.contains(s));
        assert(in_loop(c.loops[c.loops.len() - 1], s as int));
        assert(w.contains(s as int));
    }
    assert forall|j: int| 0 <= j < top.continue_jumps.len() implies operand_site(
        c.current.code,
        #[trigger] top.continue_jumps[j] as int,
    ) by {
        let s = top.continue_jumps[j];
        assert(top.continue_jumps.contains(s));
        assert(in_loop(c.loops[c.loops.len() - 1], s as int));
        assert(w.contains(s as int));
    }
}

/// Tidy code stays tidy when placeholders are given a target that is a boundary.
proof fn lemma_patch_all_tidy(chunk: ChunkModel, sites: Seq<usize>, target: int, w: Set<int>)
    requires
        tidy_code(chunk.code, w),
        forall|j: int| 0 <= j < sites.len() ==> operand_site(chunk.code, #[trigger] sites[j] as int),
        boundary(chunk.code, target),
        0 <= target <= chunk.code.len(),
        target < 0x1_0000,
    ensures
        tidy_code(patch_all(chunk, sites, target).code, w),
        same_layout(chunk.code, patch_all(chunk, sites, target).code),
{
    lemma_patch_all(chunk, sites, target);
    lemma_layout_keeps_opcodes(
        chunk.code,
        patch_all(chunk, sites, target).code,
        sites,
        chunk,
        target,
    );
    lemma_tidy_layout(chunk.code, patch_all(chunk, sites, target).code, w);
}

/// What the layout carries over: operands and boundaries.
pub proof fn lemma_layout_carries(a: Seq<u8>, b: Seq<u8>, sites: Seq<usize>, target: int)
    requires
        same_layout(a, b),
        forall|j: int| 0 <= j < sites.len() ==> operand_site(a, #[trigger] sites[j] as int),
        boundary(a, target),
    ensures
        forall|j: int| 0 <= j < sites.len() ==> operand_site(b, #[trigger] sites[j] as int),
        boundary(b, target),
        a.len() == b.len(),
{
    reveal(same_layout);
}

/// A jump that is settled stays so in code of the same layout.
proof fn lemma_layout_settled(a: Seq<u8>, b: Seq<u8>, site: int)
    requires
        same_layout(a, b),
        operand_site(a, site),
        settled(a, site - 1),
    ensures
        settled(b, site - 1),
{
    reveal(same_layout);
}

/// When the innermost loop ends, no byte changes but those of its placeholders.
pub proof fn lemma_close_loop_frame(c: CompilerModel, exit: int, next: int)
    requires
        c.loops.len() > 0,
    ensures
        c.close_loop(exit, next).current.code.len() == c.current.code.len(),
        c.close_loop(exit, next).loops == c.loops.drop_last(),
        c.close_loop(exit, next).functions == c.functions,
        c.close_loop(exit, next).current.constants == c.current.constants,
        c.close_loop(exit, next).current.name == c.current.name,
        c.close_loop(exit, next).current.param_count == c.current.param_count,
        forall|i: int|
            0 <= i < c.current.code.len() && !in_loop(c.loops.last(), i) && !in_loop(
                c.loops.last(),
                i - 1,
            ) ==> c.close_loop(exit, next).current.code[i] == c.current.code[i],
{
    let d = c.close_loop(exit, next);
    let top = c.loops.last();
    let first = patch_all(c.current, top.break_jumps, exit);
    lemma_patch_all_len(c.current, top.break_jumps, exit);
    lemma_patch_all_len(first, top.continue_jumps, next);
    assert forall|i: int|
        0 <= i < c.current.code.len() && !in_loop(top, i) && !in_loop(
            top,
            i - 1,
        ) implies d.current.code[i] == c.current.code[i] by {
        assert forall|j: int| 0 <= j < top.break_jumps.len() implies i
            != #[trigger] top.break_jumps[j] && i != top.break_jumps[j] + 1 by {
            let s = top.break_jumps[j];
            assert(top.break_jumps.contains(s));
            assert(in_loop(top, s as int));
        }
        assert forall|j: int| 0 <= j < top.continue_jumps.len() implies i
            != #[trigger] top.continue_jumps[j] && i != top.continue_jumps[j] + 1 by {
            let s = top.continue_jumps[j];
            assert(top.continue_jumps.contains(s));
            assert(in_loop(top, s as int));
        }
        lemma_patch_all_elsewhere(c.current, top.break_jumps, exit, i);
        lemma_patch_all_elsewhere(first, top.continue_jumps, next, i);
    }
}

/// After the innermost loop has ended, the jump of each of its
/// placeholders is settled.
proof fn lemma_close_settles(c: CompilerModel, held: Set<int>, exit: int, next: int, p: int)
    requires
        tidy_code(c.current.code, waiting(c, held)),
        c.loops.len() > 0,
        0 <= exit <= c.current.code.len(),
        0 <= next <= c.current.code.len(),
        c.current.code.len() <= CODE_LIMIT,
        boundary(c.current.code, exit),
        boundary(c.current.code, next),
        in_loop(c.loops.last(), p),
    ensures
        settled(c.close_loop(exit, next).current.code, p - 1),
{
    let top = c.loops.last();
    let code = c.current.code;
    let first = patch_all(c.current, top.break_jumps, exit);
    let second = patch_all(first, top.continue_jumps, next);
    lemma_sites_of_loop(c, held);
    lemma_patch_all(c.current, top.break_jumps, exit);
    lemma_layout_carries(code, first.code, top.continue_jumps, next);
    lemma_patch_all(first, top.continue_jumps, next);
    let s = p as usize;
    if top.break_jumps.contains(s) {
        let j = choose|j: int| 0 <= j < top.break_jumps.len() && top.break_jumps[j] == s;
        lemma_patch_all_settles(c.current, top.break_jumps, exit, j);
        assert(operand_site(code, top.break_jumps[j] as int));
        lemma_layout_carries(code, first.code, top.break_jumps, next);
        assert(operand_site(first.code, top.break_jumps[j] as int));
        lemma_layout_settled(first.code, second.code, p);
    } else {
        let j = choose|j: int| 0 <= j < top.continue_jumps.len() && top.continue_jumps[j] == s;
        lemma_patch_all_settles(first, top.continue_jumps, next, j);
    }
}

/// What waits after the innermost loop has ended waited before; what
/// waits no more was recorded by that loop.
pub proof fn lemma_waiting_drop(c: CompilerModel, d: CompilerModel, held: Set<int>, p: int)
    requires
        c.loops.len() > 0,
        d.loops == c.loops.drop_last(),
    ensures
        waiting(d, held).contains(p) ==> waiting(c, held).contains(p),
        waiting(c, held).contains(p) && !waiting(d, held).contains(p) ==> in_loop(
            c.loops.last(),
            p,
        ),
{
    if recorded(d.loops, p) {
        let i = choose|i: int| 0 <= i < d.loops.len() && in_loop(#[trigger] d.loops[i], p);
        assert(d.loops[i] == c.loops[i]);
        assert(in_loop(c.loops[i], p));
    }
    if recorded(c.loops, p) && !recorded(d.loops, p) {
        let i = choose|i: int| 0 <= i < c.loops.len() && in_loop(#[trigger] c.loops[i], p);
        if i < c.loops.len() - 1 {
            assert(d.loops[i] == c.loops[i]);
            assert(in_loop(d.loops[i], p));
        }
    }
}

/// The innermost loop ends: the jumps of its placeholders are settled,
/// and the code stays tidy.
pub proof fn lemma_close_loop(c: CompilerModel, held: Set<int>, exit: int, next: int)
    requires
        tidy(c, held),
        c.loops.len() > 0,
        0 <= exit <= c.current.code.len(),
        0 <= next <= c.current.code.len(),
        c.current.code.len() <= CODE_LIMIT ==> boundary(c.current.code, exit) && boundary(
            c.current.code,
            next,
        ),
    ensures
        tidy(c.close_loop(exit, next), held),
{
    let d = c.close_loop(exit, next);
    let top = c.loops.last();
    let first = patch_all(c.current, top.break_jumps, exit);
    let second = patch_all(first, top.continue_jumps, next);
    lemma_close_loop_frame(c, exit, next);
    if c.current.code.len() <= CODE_LIMIT {
        let w = waiting(c, held);
        let code = c.current.code;
        lemma_sites_of_loop(c, held);
        lemma_patch_all_tidy(c.current, top.break_jumps, exit, w);
        lemma_layout_carries(code, first.code, top.continue_jumps, next);
        lemma_patch_all_tidy(first, top.continue_jumps, next, w);
        let fewer = waiting(d, held);
        assert forall|p: int| fewer.contains(p) implies w.contains(p) by {
            lemma_waiting_drop(c, d, held, p);
        }
        assert forall|p: int| #[trigger] w.contains(p) && !fewer.contains(p) implies settled(
            second.code,
            p - 1,
        ) by {
            lemma_waiting_drop(c, d, held, p);
            lemma_close_settles(c, held, exit, next, p);
        }
        lemma_tidy_shrink(second.code, w, fewer);
    }
}

/// Patches at operands leave every instruction's own byte as it is.
proof fn lemma_layout_keeps_opcodes(
    a: Seq<u8>,
    b: Seq<u8>,
    sites: Seq<usize>,
    chunk: ChunkModel,
    target: int,
)
    requires
        chunk.code == a,
        b == patch_all(chunk, sites, target).code,
        forall|j: int| 0 <= j < sites.len() ==> operand_site(a, #[trigger] sites[j] as int),
    ensures
        forall|at: int| boundary(a, at) && 0 <= at < a.len() ==> a[at] == b[at],
{
    assert forall|at: int| boundary(a, at) && 0 <= at < a.len() implies a[at] == b[at] by {
        assert forall|j: int| 0 <= j < sites.len() implies at != #[trigger] sites[j] && at
            != sites[j] + 1 by {
            let s = sites[j] as int;
            assert(operand_site(a, s));
            if at == s || at == s + 1 {
                lemma_not_inside(a, s - 1, at);
            }
        }
        lemma_patch_all_elsewhere(chunk, sites, target, at);
    }
}

} // verus!

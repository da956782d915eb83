//! What each step of a compilation keeps true of the heights at which
//! the instructions find the stack.

use vstd::prelude::*;
use crate::chunk::{ChunkModel, patched, target_of};
use crate::layout::{
    agree, boundary, is_jump_at, lemma_append_boundary, lemma_extend_boundary, lemma_not_inside,
    lemma_reaches_from_to, lemma_reaches_linear, operand_site, reaches, settled, target_at,
    width_at,
};
use crate::level::{height_after, level_at, levels};
use crate::lowering::{CompilerModel, LoopModel, patch_all};
use crate::opcode::{OpCode, lemma_decode_inverts_byte};
use crate::shape::{
    CODE_LIMIT, in_loop, lemma_patch_all, lemma_patch_all_elsewhere, lemma_patch_all_len,
    lemma_target_bytes, recorded, same_layout, tidy, tidy_code, waiting,
};
use crate::steps::{
    lemma_close_loop_frame, lemma_layout_carries, lemma_patch_here, lemma_push_loop, lemma_record,
    lemma_sites_of_loop, lemma_waiting_drop, record,
};

verus! {

/// Whether the heights `later` begin with the heights `hs`.
pub open spec fn kept(hs: Seq<int>, later: Seq<int>) -> bool {
    &&& hs.len() <= later.len()
    &&& forall|i: int| 0 <= i < hs.len() ==> later[i] == hs[i]
}

/// The placeholders that the loops have recorded.
pub open spec fn marks(loops: Seq<LoopModel>) -> Set<int> {
    Set::new(|p: int| recorded(loops, p))
}

/// Whether the heights fit the code of a compilation under way, as the
/// code of a function; this is asked of code within the limit only.
pub open spec fn even(c: CompilerModel, hs: Seq<int>, held: Set<int>, main: bool) -> bool {
    c.current.code.len() <= CODE_LIMIT ==> levels(
        c.current.code,
        hs,
        waiting(c, held),
        marks(c.loops),
        main,
    )
}

/// The heights after an instruction has been put at the end: the height
/// that it leaves stands behind its last byte.
pub open spec fn raised(hs: Seq<int>, op: OpCode, a: u8, b: u8) -> Seq<int> {
    let k = height_after(op, a, b, hs.last());
    if op.operand_len() == 0 {
        hs.push(k)
    } else if op.operand_len() == 1 {
        hs.push(0).push(k)
    } else {
        hs.push(0).push(0).push(k)
    }
}

/// An instruction within whole instructions ends within them.
pub proof fn lemma_within(code: Seq<u8>, at: int)
    requires
        boundary(code, at),
        boundary(code, code.len() as int),
        0 <= at < code.len(),
    ensures
        at + width_at(code, at) <= code.len(),
{
    lemma_reaches_linear(code, 0, at, code.len() as int);
    assert(reaches(code, at + width_at(code, at), code.len() as int));
    lemma_reaches_from_to(code, at + width_at(code, at), code.len() as int);
}

/// Heights that fit code fit it still when an instruction is put at its
/// end, if they fit that instruction.
pub proof fn lemma_levels_append(
    a: Seq<u8>,
    b: Seq<u8>,
    hs: Seq<int>,
    later: Seq<int>,
    pending: Set<int>,
    more: Set<int>,
    marked: Set<int>,
    main: bool,
)
    requires
        tidy_code(a, pending),
        levels(a, hs, pending, marked, main),
        agree(a, b, 0, a.len() as int),
        a.len() < b.len(),
        b.len() == a.len() + width_at(b, a.len() as int),
        later.len() == b.len() + 1,
        kept(hs, later),
        forall|p: int| p <= a.len() ==> more.contains(p) == pending.contains(p),
        level_at(b, later, more, marked, main, a.len() as int),
    ensures
        levels(b, later, more, marked, main),
{
    reveal(tidy_code);
    reveal(levels);
    lemma_append_boundary(a, b);
    assert forall|at: int| 0 <= at < b.len() && boundary(b, at) implies #[trigger] level_at(
        b,
        later,
        more,
        marked,
        main,
        at,
    ) by {
        if at < a.len() {
            lemma_extend_boundary(a, b, at);
            lemma_within(a, at);
            assert(level_at(a, hs, pending, marked, main, at));
            assert(a[at] == b[at]);
            if width_at(a, at) >= 2 {
                assert(a[at + 1] == b[at + 1]);
            }
            if width_at(a, at) >= 3 {
                assert(a[at + 2] == b[at + 2]);
            }
            if is_jump_at(a, at) && !pending.contains(at + 1) {
                assert(settled(a, at));
            }
        } else if at > a.len() {
            assert(!boundary(b, at));
        }
    }
}

/// Heights that fit code fit it still when placeholders have been given
/// targets at which the stack is as high as their jumps leave it.
pub proof fn lemma_levels_settle(
    a: Seq<u8>,
    b: Seq<u8>,
    hs: Seq<int>,
    pending: Set<int>,
    fewer: Set<int>,
    marked: Set<int>,
    less: Set<int>,
    main: bool,
)
    requires
        tidy_code(a, pending),
        levels(a, hs, pending, marked, main),
        a.len() == b.len(),
        forall|to: int| boundary(b, to) == boundary(a, to),
        forall|i: int|
            0 <= i < a.len() && a[i] != b[i] ==> pending.contains(i) || pending.contains(i - 1),
        forall|p: int| fewer.contains(p) ==> pending.contains(p),
        forall|p: int| less.contains(p) ==> marked.contains(p),
        forall|p: int|
            #[trigger] pending.contains(p) && !fewer.contains(p) ==> hs[target_at(b, p - 1)]
                == height_after(OpCode::decode(a[p - 1])->0, 0, 0, hs[p - 1]),
    ensures
        levels(b, hs, fewer, less, main),
{
    reveal(tidy_code);
    reveal(levels);
    assert forall|at: int| 0 <= at < b.len() && boundary(b, at) implies #[trigger] level_at(
        b,
        hs,
        fewer,
        less,
        main,
        at,
    ) by {
        assert(boundary(a, at));
        lemma_within(a, at);
        assert(level_at(a, hs, pending, marked, main, at));
        lemma_apart(a, pending, at, at);
        lemma_apart(a, pending, at, at - 1);
        assert(a[at] == b[at]);
        if !pending.contains(at + 1) {
            if width_at(a, at) >= 2 {
                assert(a[at + 1] == b[at + 1]);
            }
            if width_at(a, at) >= 3 {
                lemma_apart(a, pending, at, at + 2);
                assert(a[at + 2] == b[at + 2]);
            }
        }
    }
}

/// No placeholder stands at the start of an instruction, or at the
/// second operand byte of an instruction.
proof fn lemma_apart(code: Seq<u8>, pending: Set<int>, at: int, p: int)
    requires
        tidy_code(code, pending),
        boundary(code, at),
        0 <= at < code.len(),
        p == at - 1 || p == at || (p == at + 2 && width_at(code, at) >= 3),
    ensures
        !pending.contains(p),
{
    reveal(tidy_code);
    if pending.contains(p) {
        assert(operand_site(code, p));
        if p == at {
            lemma_not_inside(code, p - 1, at);
        } else if p == at - 1 {
            lemma_not_inside(code, p - 1, at);
        } else {
            lemma_not_inside(code, at, p - 1);
        }
    }
}

/// A placeholder is the operand of a jump.
pub proof fn lemma_pending_jump(
    code: Seq<u8>,
    hs: Seq<int>,
    pending: Set<int>,
    marked: Set<int>,
    main: bool,
    p: int,
)
    requires
        tidy_code(code, pending),
        levels(code, hs, pending, marked, main),
        pending.contains(p),
    ensures
        is_jump_at(code, p - 1),
        boundary(code, p - 1),
        marked.contains(p) ==> OpCode::decode(code[p - 1]) == Some(OpCode::Jump) && hs[p - 1] == 0,
{
    reveal(tidy_code);
    reveal(levels);
    assert(operand_site(code, p));
    assert(level_at(code, hs, pending, marked, main, p - 1));
}

/// An instruction that is put at the end of the code, with the height
/// that it leaves behind it.  A jump either gets its placeholder held, or
/// leads back to a place at which the stack is as high as it leaves it.
pub proof fn lemma_even_emit(
    c: CompilerModel,
    d: CompilerModel,
    hs: Seq<int>,
    held: Set<int>,
    more: Set<int>,
    op: OpCode,
    a: u8,
    b: u8,
    main: bool,
)
    requires
        tidy(c, held),
        even(c, hs, held, main),
        d.loops == c.loops,
        agree(c.current.code, d.current.code, 0, c.current.code.len() as int),
        d.current.code.len() == c.current.code.len() + 1 + op.operand_len(),
        d.current.code[c.offset()] == op.byte(),
        op.operand_len() >= 1 ==> d.current.code[c.offset() + 1] == a,
        op.operand_len() >= 2 ==> d.current.code[c.offset() + 2] == b,
        more == held || (op.is_jump() && more == held.insert(c.offset() + 1)),
        d.current.code.len() <= CODE_LIMIT ==> {
            &&& op == OpCode::Return ==> hs.last() == 1 && !main
            &&& op == OpCode::ReturnNone ==> hs.last() == 0 && !main
            &&& op == OpCode::Halt ==> hs.last() == 0 && main
            &&& op.is_jump() && more == held ==> 0 <= target_of(a, b) <= c.current.code.len()
                && hs[target_of(a, b)] == height_after(op, a, b, hs.last())
        },
    ensures
        even(d, raised(hs, op, a, b), more, main),
        kept(hs, raised(hs, op, a, b)),
        d.current.code.len() <= CODE_LIMIT ==> raised(hs, op, a, b).last() == height_after(
            op,
            a,
            b,
            hs.last(),
        ) && hs.len() == c.current.code.len() + 1,
{
    let later = raised(hs, op, a, b);
    if d.current.code.len() <= CODE_LIMIT {
        reveal(levels);
        let x = c.current.code;
        let y = d.current.code;
        let at = x.len() as int;
        lemma_decode_inverts_byte(op, op.byte());
        assert(hs.last() == hs[at]);
        assert(later[at] == hs[at]);
        assert(later[at + 1 + op.operand_len()] == height_after(op, a, b, hs[at]));
        assert(width_at(y, at) == 1 + op.operand_len());
        let w = waiting(c, held);
        let v = waiting(d, more);
        assert forall|p: int| p <= x.len() implies v.contains(p) == w.contains(p) by {}
        if op.is_jump() && more == held {
            assert(target_at(y, at) == target_of(a, b));
            assert(later[target_of(a, b)] == hs[target_of(a, b)]);
        }
        assert(!w.contains(at + 1)) by {
            reveal(tidy_code);
            if w.contains(at + 1) {
                assert(operand_site(x, at + 1));
            }
        }
        assert(!marks(c.loops).contains(at + 1));
        assert(v.contains(at + 1) ==> op.is_jump());
        assert(height_after(op, y[at + 1], y[at + 2], later[at]) == height_after(op, a, b, hs[at]));
        assert(level_at(y, later, v, marks(c.loops), main, at));
        lemma_levels_append(x, y, hs, later, w, v, marks(c.loops), main);
    }
}

/// A placeholder that is held is given the end of the code as its target,
/// where the stack is as high as its jump leaves it.
pub proof fn lemma_even_patch(c: CompilerModel, hs: Seq<int>, held: Set<int>, site: int, main: bool)
    requires
        tidy(c, held.insert(site)),
        even(c, hs, held.insert(site), main),
        c.current.code.len() <= CODE_LIMIT ==> hs[c.offset()] == height_after(
            OpCode::decode(c.current.code[site - 1])->0,
            0,
            0,
            hs[site - 1],
        ),
    ensures
        even(c.patch_here(site), hs, held, main),
{
    let d = c.patch_here(site);
    lemma_patch_here(c, held, site);
    if c.current.code.len() <= CODE_LIMIT {
        let a = c.current.code;
        let b = d.current.code;
        let pending = waiting(c, held.insert(site));
        let fewer = waiting(d, held);
        assert(pending.contains(site));
        assert(operand_site(a, site)) by {
            reveal(tidy_code);
        }
        lemma_target_bytes(a.len() as int);
        assert(target_at(b, site - 1) == a.len());
        assert(marks(d.loops) =~= marks(c.loops));
        assert forall|p: int| #[trigger] pending.contains(p) && !fewer.contains(p) implies hs[target_at(
            b,
            p - 1,
        )] == height_after(OpCode::decode(a[p - 1])->0, 0, 0, hs[p - 1]) by {
            assert(p == site);
        }
        lemma_levels_settle(a, b, hs, pending, fewer, marks(c.loops), marks(d.loops), main);
    }
}

/// A plain jump between statements whose placeholder is held is recorded
/// with the innermost loop.
pub proof fn lemma_even_record(
    c: CompilerModel,
    hs: Seq<int>,
    held: Set<int>,
    site: usize,
    is_continue: bool,
    main: bool,
)
    requires
        tidy(c, held.insert(site as int)),
        even(c, hs, held.insert(site as int), main),
        c.loops.len() > 0,
        c.current.code.len() <= CODE_LIMIT ==> OpCode::decode(c.current.code[site - 1]) == Some(
            OpCode::Jump,
        ) && hs[site - 1] == 0,
    ensures
        even(record(c, site, is_continue), hs, held, main),
{
    let d = record(c, site, is_continue);
    lemma_record(c, held, site, is_continue);
    if c.current.code.len() <= CODE_LIMIT {
        reveal(levels);
        let code = c.current.code;
        let pending = waiting(c, held.insert(site as int));
        assert forall|p: int| waiting(d, held).contains(p) == pending.contains(p) by {
            assert(recorded(d.loops, p) <==> recorded(c.loops, p) || p == site);
        }
        assert(waiting(d, held) =~= pending);
        let marked = marks(c.loops);
        let more = marks(d.loops);
        assert forall|at: int| 0 <= at < code.len() && boundary(code, at) implies #[trigger] level_at(
            code,
            hs,
            pending,
            more,
            main,
            at,
        ) by {
            assert(level_at(code, hs, pending, marked, main, at));
            assert(more.contains(at + 1) ==> marked.contains(at + 1) || at + 1 == site);
        }
    }
}

/// A loop that opens records nothing.
pub proof fn lemma_even_push_loop(c: CompilerModel, hs: Seq<int>, held: Set<int>, main: bool)
    requires
        tidy(c, held),
        even(c, hs, held, main),
    ensures
        even(c.push_loop(), hs, held, main),
{
    let d = c.push_loop();
    lemma_push_loop(c, held);
    assert(marks(d.loops) =~= marks(c.loops));
    assert(waiting(d, held) =~= waiting(c, held));
}

/// All placeholders of a list are given a target: their bytes hold it.
proof fn lemma_patch_all_bytes(chunk: ChunkModel, sites: Seq<usize>, target: int, j: int)
    requires
        forall|k: int| 0 <= k < sites.len() ==> operand_site(chunk.code, #[trigger] sites[k] as int),
        0 <= target < 0x1_0000,
        0 <= j < sites.len(),
    ensures
        target_at(patch_all(chunk, sites, target).code, sites[j] - 1) == target,
    decreases sites.len(),
{
    let before = sites.drop_last();
    let last = sites.last() as int;
    let s = sites[j] as int;
    let mid = patch_all(chunk, before, target);
    let out = patch_all(chunk, sites, target);
    lemma_patch_all_len(chunk, before, target);
    lemma_target_bytes(target);
    assert(out.code == patched(mid.code, last, target));
    assert(operand_site(chunk.code, sites[sites.len() - 1] as int));
    assert(operand_site(chunk.code, sites[j] as int));
    if last != s {
        assert(before[j] == sites[j]);
        assert forall|k: int| 0 <= k < before.len() implies operand_site(
            chunk.code,
            #[trigger] before[k] as int,
        ) by {
            assert(before[k] == sites[k]);
        }
        lemma_patch_all_bytes(chunk, before, target, j);
        lemma_sites_apart(chunk.code, s, last);
    }
}

/// The operands of two instructions do not overlap.
proof fn lemma_sites_apart(code: Seq<u8>, s: int, t: int)
    requires
        operand_site(code, s),
        operand_site(code, t),
        s != t,
    ensures
        s != t + 1,
        t != s + 1,
{
    if s == t + 1 {
        lemma_not_inside(code, t - 1, t);
    }
    if t == s + 1 {
        lemma_not_inside(code, s - 1, s);
    }
}

/// After the innermost loop has ended, each of its placeholders holds
/// one of the two targets, and no instruction has moved.
proof fn lemma_close_targets(c: CompilerModel, held: Set<int>, exit: int, next: int)
    requires
        tidy_code(c.current.code, waiting(c, held)),
        c.loops.len() > 0,
        0 <= exit <= c.current.code.len(),
        0 <= next <= c.current.code.len(),
        c.current.code.len() <= CODE_LIMIT,
        boundary(c.current.code, exit),
        boundary(c.current.code, next),
    ensures
        forall|to: int|
            boundary(c.close_loop(exit, next).current.code, to) == boundary(c.current.code, to),
        forall|p: int|
            in_loop(c.loops.last(), p) ==> target_at(c.close_loop(exit, next).current.code, p - 1)
                == exit || target_at(c.close_loop(exit, next).current.code, p - 1) == next,
{
    let top = c.loops.last();
    let code = c.current.code;
    let first = patch_all(c.current, top.break_jumps, exit);
    let second = patch_all(first, top.continue_jumps, next);
    lemma_sites_of_loop(c, held);
    lemma_patch_all(c.current, top.break_jumps, exit);
    lemma_layout_carries(code, first.code, top.continue_jumps, next);
    lemma_patch_all(first, top.continue_jumps, next);
    assert forall|to: int| boundary(second.code, to) == boundary(code, to) by {
        reveal(same_layout);
    }
    assert forall|p: int| in_loop(top, p) implies target_at(second.code, p - 1) == exit
        || target_at(second.code, p - 1) == next by {
        let s = p as usize;
        if top.continue_jumps.contains(s) {
            let j = choose|j: int| 0 <= j < top.continue_jumps.len() && top.continue_jumps[j] == s;
            lemma_patch_all_bytes(first, top.continue_jumps, next, j);
        } else {
            let j = choose|j: int| 0 <= j < top.break_jumps.len() && top.break_jumps[j] == s;
            lemma_patch_all_bytes(c.current, top.break_jumps, exit, j);
            assert(operand_site(code, top.break_jumps[j] as int));
            lemma_patch_all_len(c.current, top.break_jumps, exit);
            assert forall|k: int| 0 <= k < top.continue_jumps.len() implies p
                != #[trigger] top.continue_jumps[k] && p != top.continue_jumps[k] + 1 && p + 1
                != top.continue_jumps[k] && p + 1 != top.continue_jumps[k] + 1 by {
                let t = top.continue_jumps[k];
                assert(top.continue_jumps.contains(t));
                assert(operand_site(code, top.continue_jumps[k] as int));
                lemma_sites_apart(code, p, t as int);
            }
            lemma_patch_all_elsewhere(first, top.continue_jumps, next, p);
            lemma_patch_all_elsewhere(first, top.continue_jumps, next, p + 1);
        }
    }
}

/// The innermost loop ends: its placeholders are given targets between
/// statements.
pub proof fn lemma_even_close(
    c: CompilerModel,
    hs: Seq<int>,
    held: Set<int>,
    exit: int,
    next: int,
    main: bool,
)
    requires
        tidy(c, held),
        even(c, hs, held, main),
        c.loops.len() > 0,
        0 <= exit <= c.current.code.len(),
        0 <= next <= c.current.code.len(),
        c.current.code.len() <= CODE_LIMIT ==> boundary(c.current.code, exit) && boundary(
            c.current.code,
            next,
        ) && hs[exit] == 0 && hs[next] == 0,
    ensures
        even(c.close_loop(exit, next), hs, held, main),
{
    let d = c.close_loop(exit, next);
    lemma_close_loop_frame(c, exit, next);
    if c.current.code.len() <= CODE_LIMIT {
        let a = c.current.code;
        let b = d.current.code;
        let pending = waiting(c, held);
        let fewer = waiting(d, held);
        let marked = marks(c.loops);
        let less = marks(d.loops);
        lemma_close_targets(c, held, exit, next);
        assert forall|i: int| 0 <= i < a.len() && a[i] != b[i] implies pending.contains(i)
            || pending.contains(i - 1) by {
            if in_loop(c.loops.last(), i) {
                assert(in_loop(c.loops[c.loops.len() - 1], i));
            } else {
                assert(in_loop(c.loops[c.loops.len() - 1], i - 1));
            }
        }
        assert forall|p: int| fewer.contains(p) implies pending.contains(p) by {
            lemma_waiting_drop(c, d, held, p);
        }
        assert forall|p: int| less.contains(p) implies marked.contains(p) by {
            lemma_waiting_drop(c, d, Set::empty(), p);
            assert(waiting(d, Set::empty()).contains(p));
        }
        assert forall|p: int| #[trigger] pending.contains(p) && !fewer.contains(p) implies hs[target_at(
            b,
            p - 1,
        )] == height_after(OpCode::decode(a[p - 1])->0, 0, 0, hs[p - 1]) by {
            lemma_waiting_drop(c, d, held, p);
            assert(in_loop(c.loops[c.loops.len() - 1], p));
            assert(marked.contains(p));
            lemma_pending_jump(a, hs, pending, marked, main, p);
        }
        lemma_levels_settle(a, b, hs, pending, fewer, marked, less, main);
    }
}

} // verus!

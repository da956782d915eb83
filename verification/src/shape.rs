//! What a compilation keeps true of the code that it builds.

use vstd::prelude::*;
use crate::chunk::{ChunkModel, high_byte, low_byte, patched, target_of};
use crate::layout::{
    agree,
    boundary,
    differ_at,
    is_op_at,
    is_jump_at,
    lemma_append_boundary,
    lemma_extend_boundary,
    lemma_not_inside,
    lemma_patch_boundary,
    operand_site,
    settled,
    target_at,
    width_at,
};
use crate::lowering::{CompilerModel, LoopModel, patch_all};
pub use crate::lowering::CODE_LIMIT;

verus! {

/// Whether a loop has recorded the placeholder at `p`.
pub open spec fn in_loop(l: LoopModel, p: int) -> bool {
    0 <= p <= usize::MAX && (l.break_jumps.contains(p as usize) || l.continue_jumps.contains(
        p as usize,
    ))
}

/// Whether one of the loops has recorded the placeholder at `p`.
pub open spec fn recorded(loops: Seq<LoopModel>, p: int) -> bool {
    exists|i: int| 0 <= i < loops.len() && in_loop(#[trigger] loops[i], p)
}

/// The placeholders that wait for their targets: those that the loops
/// have recorded, and those that statements under way hold.
pub open spec fn waiting(c: CompilerModel, held: Set<int>) -> Set<int> {
    Set::new(|p: int| held.contains(p) || recorded(c.loops, p))
}

/// Whether code consists of whole instructions, each of which starts
/// with a byte that is an instruction, every placeholder in `pending` is
/// the operand of one of them, and every jump that has no placeholder in
/// `pending` leads to an instruction or to the end.
#[verifier::opaque]
pub open spec fn tidy_code(code: Seq<u8>, pending: Set<int>) -> bool {
    &&& boundary(code, code.len() as int)
    &&& forall|at: int| 0 <= at < code.len() && boundary(code, at) ==> #[trigger] is_op_at(code, at)
    &&& forall|p: int| #[trigger] pending.contains(p) ==> operand_site(code, p)
    &&& forall|at: int|
        boundary(code, at) && #[trigger] is_jump_at(code, at) ==> settled(code, at)
            || pending.contains(at + 1)
}

/// [`tidy_code`], for code that is within the limit.
pub open spec fn tidy(c: CompilerModel, held: Set<int>) -> bool {
    c.current.code.len() <= CODE_LIMIT ==> tidy_code(c.current.code, waiting(c, held))
}

/// Whether the constants of `a` are the first of those of `b`.
pub open spec fn constants_kept(a: ChunkModel, b: ChunkModel) -> bool {
    &&& a.constants.len() <= b.constants.len()
    &&& forall|i: int| 0 <= i < a.constants.len() ==> a.constants[i] == b.constants[i]
}

/// What a step of a compilation keeps: the code so far, the constants so
/// far, the functions, and the loops other than the innermost, which may
/// have recorded placeholders in the new code.
pub open spec fn grows(c: CompilerModel, d: CompilerModel) -> bool {
    &&& agree(c.current.code, d.current.code, 0, c.current.code.len() as int)
    &&& constants_kept(c.current, d.current)
    &&& d.current.name == c.current.name
    &&& d.current.param_count == c.current.param_count
    &&& d.functions == c.functions
    &&& d.loops.len() == c.loops.len()
    &&& forall|i: int| 0 <= i < c.loops.len() - 1 ==> d.loops[i] == c.loops[i]
    &&& c.loops.len() > 0 ==> forall|p: int|
        (in_loop(c.loops.last(), p) ==> #[trigger] in_loop(d.loops.last(), p)) && (in_loop(
            d.loops.last(),
            p,
        ) ==> in_loop(c.loops.last(), p) || c.current.code.len() <= p)
}

pub proof fn lemma_grows_refl(c: CompilerModel)
    ensures
        grows(c, c),
{
}

pub proof fn lemma_grows_trans(a: CompilerModel, b: CompilerModel, c: CompilerModel)
    requires
        grows(a, b),
        grows(b, c),
    ensures
        grows(a, c),
{
    assert forall|i: int| 0 <= i < a.current.constants.len() implies a.current.constants[i]
        == c.current.constants[i] by {
        assert(a.current.constants[i] == b.current.constants[i]);
    }
    assert forall|i: int| 0 <= i < a.loops.len() - 1 implies c.loops[i] == a.loops[i] by {
        assert(b.loops[i] == a.loops[i]);
    }
    if a.loops.len() > 0 {
        assert forall|p: int|
            (in_loop(a.loops.last(), p) ==> #[trigger] in_loop(c.loops.last(), p)) && (in_loop(
                c.loops.last(),
                p,
            ) ==> in_loop(a.loops.last(), p) || a.current.code.len() <= p) by {
            if in_loop(a.loops.last(), p) {
                assert(in_loop(b.loops.last(), p));
            }
            if in_loop(c.loops.last(), p) {
                assert(in_loop(b.loops.last(), p) || b.current.code.len() <= p);
            }
        }
    }
}

/// Steps that keep the loops as they are record nothing.
pub proof fn lemma_waiting_same(c: CompilerModel, d: CompilerModel, held: Set<int>)
    requires
        d.loops == c.loops,
    ensures
        waiting(d, held) == waiting(c, held),
{
    assert(waiting(d, held) =~= waiting(c, held));
}

/// Code that is tidy stays so when an instruction that is no jump is put
/// at its end.
pub proof fn lemma_tidy_append(a: Seq<u8>, b: Seq<u8>, pending: Set<int>)
    requires
        tidy_code(a, pending),
        agree(a, b, 0, a.len() as int),
        a.len() < b.len(),
        b.len() == a.len() + width_at(b, a.len() as int),
        !is_jump_at(b, a.len() as int),
        is_op_at(b, a.len() as int),
    ensures
        tidy_code(b, pending),
{
    reveal(tidy_code);
    lemma_append_boundary(a, b);
    assert forall|at: int| 0 <= at < b.len() && boundary(b, at) implies #[trigger] is_op_at(
        b,
        at,
    ) by {
        if at < a.len() {
            lemma_extend_boundary(a, b, at);
            assert(is_op_at(a, at));
            assert(a[at] == b[at]);
        } else if at > a.len() {
            assert(!boundary(b, at));
        }
    }
    assert forall|p: int| #[trigger] pending.contains(p) implies operand_site(b, p) by {
        assert(operand_site(a, p));
        lemma_extend_boundary(a, b, p - 1);
    }
    assert forall|at: int| boundary(b, at) && #[trigger] is_jump_at(b, at) implies settled(b, at)
        || pending.contains(at + 1) by {
        lemma_jump_kept(a, b, at);
        if !pending.contains(at + 1) {
            lemma_settled_kept(a, b, at);
        }
    }
}

/// A jump of longer code that stands at a boundary stands in the first
/// part, at a boundary, if the rest is one instruction that is no jump.
proof fn lemma_jump_kept(a: Seq<u8>, b: Seq<u8>, at: int)
    requires
        agree(a, b, 0, a.len() as int),
        boundary(a, a.len() as int),
        a.len() < b.len(),
        b.len() == a.len() + width_at(b, a.len() as int),
        !is_jump_at(b, a.len() as int),
        boundary(b, at),
        is_jump_at(b, at),
    ensures
        at < a.len(),
        boundary(a, at),
        is_jump_at(a, at),
{
    lemma_append_boundary(a, b);
    if at > a.len() {
        assert(!boundary(b, at));
    }
    lemma_extend_boundary(a, b, at);
}

/// A jump that is settled stays so when code is put at the end.
pub proof fn lemma_settled_kept(a: Seq<u8>, b: Seq<u8>, at: int)
    requires
        agree(a, b, 0, a.len() as int),
        0 <= at,
        settled(a, at),
    ensures
        settled(b, at),
{
    assert(a[at + 1] == b[at + 1]);
    assert(a[at + 2] == b[at + 2]);
    lemma_extend_boundary(a, b, target_at(a, at));
}

/// Code that is tidy stays so when a jump is put at its end, if the
/// jump's placeholder counts as pending from then on.
pub proof fn lemma_tidy_append_jump(a: Seq<u8>, b: Seq<u8>, pending: Set<int>)
    requires
        tidy_code(a, pending),
        agree(a, b, 0, a.len() as int),
        b.len() == a.len() + 3,
        width_at(b, a.len() as int) == 3,
    ensures
        tidy_code(b, pending.insert(a.len() as int + 1)),
{
    reveal(tidy_code);
    lemma_append_boundary(a, b);
    let more = pending.insert(a.len() as int + 1);
    lemma_extend_boundary(a, b, a.len() as int);
    assert forall|at: int| 0 <= at < b.len() && boundary(b, at) implies #[trigger] is_op_at(
        b,
        at,
    ) by {
        if at < a.len() {
            lemma_extend_boundary(a, b, at);
            assert(is_op_at(a, at));
            assert(a[at] == b[at]);
        } else if at > a.len() {
            assert(!boundary(b, at));
        }
    }
    assert forall|p: int| #[trigger] more.contains(p) implies operand_site(b, p) by {
        if pending.contains(p) {
            assert(operand_site(a, p));
            lemma_extend_boundary(a, b, p - 1);
        }
    }
    assert forall|at: int| boundary(b, at) && #[trigger] is_jump_at(b, at) implies settled(b, at)
        || more.contains(at + 1) by {
        if at < a.len() {
            lemma_extend_boundary(a, b, at);
            assert(a[at] == b[at]);
            assert(is_jump_at(a, at));
            if !pending.contains(at + 1) {
                lemma_settled_kept(a, b, at);
            }
        } else if at > a.len() {
            assert(!boundary(b, at));
        }
    }
}

/// The two bytes of a target below 2^16 hold the target.
pub proof fn lemma_target_bytes(target: int)
    requires
        0 <= target < 0x1_0000,
    ensures
        target_of(high_byte(target), low_byte(target)) == target,
{
}

/// Code that is tidy stays so when a placeholder is given a target that
/// is a boundary; the jump of the placeholder is settled then.
pub proof fn lemma_tidy_patch(code: Seq<u8>, pending: Set<int>, site: int, target: int)
    requires
        tidy_code(code, pending),
        operand_site(code, site),
        boundary(code, target),
        target <= code.len(),
        target < 0x1_0000,
    ensures
        tidy_code(patched(code, site, target), pending),
        settled(patched(code, site, target), site - 1),
        forall|to: int| boundary(patched(code, site, target), to) == boundary(code, to),
        forall|at: int|
            0 <= at && settled(code, at) && boundary(code, at) && #[trigger] is_jump_at(code, at)
                ==> settled(patched(code, site, target), at),
{
    reveal(tidy_code);
    let b = patched(code, site, target);
    assert(differ_at(code, b, site));
    assert forall|to: int| boundary(b, to) == boundary(code, to) by {
        lemma_patch_boundary(code, b, site, to);
    }
    lemma_patch_boundary(code, b, site, 0);
    lemma_target_bytes(target);
    assert(settled(b, site - 1));
    assert forall|at: int| 0 <= at < b.len() && boundary(b, at) implies #[trigger] is_op_at(
        b,
        at,
    ) by {
        if at == site || at == site + 1 {
            lemma_not_inside(code, site - 1, at);
        }
        assert(is_op_at(code, at));
        assert(code[at] == b[at]);
    }
    assert forall|p: int| #[trigger] pending.contains(p) implies operand_site(b, p) by {
        assert(operand_site(code, p));
        if p - 1 == site || p - 1 == site + 1 {
            lemma_not_inside(code, site - 1, p - 1);
        }
    }
    assert forall|at: int|
        0 <= at && boundary(code, at) && #[trigger] is_jump_at(code, at) && settled(
            code,
            at,
        ) implies settled(b, at) by {
        lemma_operands_apart(code, site, at);
    }
    assert forall|at: int| boundary(b, at) && #[trigger] is_jump_at(b, at) implies settled(b, at)
        || pending.contains(at + 1) by {
        if at == site || at == site + 1 {
            lemma_not_inside(code, site - 1, at);
        }
        assert(code[at] == b[at]);
        assert(is_jump_at(code, at));
        if at != site - 1 && !pending.contains(at + 1) {
            assert(settled(code, at));
        }
    }
}

/// The operands of two instructions do not overlap.
proof fn lemma_operands_apart(code: Seq<u8>, site: int, at: int)
    requires
        operand_site(code, site),
        boundary(code, at),
        is_jump_at(code, at),
        at + 2 < code.len(),
    ensures
        at == site - 1 || (at + 1 != site && at + 1 != site + 1 && at + 2 != site && at + 2 != site
            + 1),
{
    assert(width_at(code, at) == 3);
    if at != site - 1 {
        if at == site {
            lemma_not_inside(code, site - 1, at);
        }
        if at + 2 == site {
            lemma_not_inside(code, at, site - 1);
        }
    }
}

/// Whether `b` has the layout of `a`: the same length, the same
/// boundaries, the operands of `a` as operands, and the jumps that are
/// settled in `a` settled.
#[verifier::opaque]
pub open spec fn same_layout(a: Seq<u8>, b: Seq<u8>) -> bool {
    &&& a.len() == b.len()
    &&& forall|to: int| boundary(b, to) == boundary(a, to)
    &&& forall|p: int| operand_site(a, p) ==> operand_site(b, p)
    &&& forall|at: int|
        0 <= at && settled(a, at) && boundary(a, at) && width_at(a, at) == 3 ==> settled(b, at)
            && width_at(b, at) == 3
}

pub proof fn lemma_same_layout_refl(a: Seq<u8>)
    ensures
        same_layout(a, a),
{
    reveal(same_layout);
}

pub proof fn lemma_same_layout_trans(a: Seq<u8>, b: Seq<u8>, c: Seq<u8>)
    requires
        same_layout(a, b),
        same_layout(b, c),
    ensures
        same_layout(a, c),
{
    reveal(same_layout);
    assert forall|at: int|
        0 <= at && settled(a, at) && boundary(a, at) && width_at(a, at) == 3 implies settled(c, at)
        && width_at(c, at) == 3 by {
        assert(settled(b, at) && width_at(b, at) == 3);
        assert(boundary(b, at));
    }
}

/// A patch keeps the layout.
pub proof fn lemma_patch_layout(code: Seq<u8>, site: int, target: int)
    requires
        operand_site(code, site),
        boundary(code, target),
        target <= code.len(),
        target < 0x1_0000,
    ensures
        same_layout(code, patched(code, site, target)),
        settled(patched(code, site, target), site - 1),
{
    reveal(same_layout);
    let b = patched(code, site, target);
    assert(differ_at(code, b, site));
    assert forall|to: int| boundary(b, to) == boundary(code, to) by {
        lemma_patch_boundary(code, b, site, to);
    }
    lemma_patch_boundary(code, b, site, 0);
    lemma_target_bytes(target);
    assert forall|p: int| operand_site(code, p) implies operand_site(b, p) by {
        if p - 1 == site || p - 1 == site + 1 {
            lemma_not_inside(code, site - 1, p - 1);
        }
    }
    assert forall|at: int|
        0 <= at && settled(code, at) && boundary(code, at) && width_at(code, at)
            == 3 implies settled(b, at) && width_at(b, at) == 3 by {
        lemma_settled_patch(code, site, target, at);
        if at == site || at == site + 1 {
            lemma_not_inside(code, site - 1, at);
        }
    }
}

/// What the layout of tidy code keeps tidy.
pub proof fn lemma_tidy_layout(a: Seq<u8>, b: Seq<u8>, pending: Set<int>)
    requires
        tidy_code(a, pending),
        same_layout(a, b),
        forall|at: int| boundary(a, at) && 0 <= at < a.len() ==> a[at] == b[at],
    ensures
        tidy_code(b, pending),
{
    reveal(tidy_code);
    reveal(same_layout);
    assert forall|at: int| 0 <= at < b.len() && boundary(b, at) implies #[trigger] is_op_at(
        b,
        at,
    ) by {
        assert(boundary(a, at));
        assert(is_op_at(a, at));
        assert(a[at] == b[at]);
    }
    assert forall|at: int| boundary(b, at) && #[trigger] is_jump_at(b, at) implies settled(b, at)
        || pending.contains(at + 1) by {
        assert(boundary(a, at));
        assert(a[at] == b[at]);
        assert(is_jump_at(a, at));
        assert(width_at(a, at) == 3);
    }
}

/// All placeholders of a list are given a target that is a boundary: the
/// layout stays.
pub proof fn lemma_patch_all(chunk: ChunkModel, sites: Seq<usize>, target: int)
    requires
        forall|j: int| 0 <= j < sites.len() ==> operand_site(chunk.code, #[trigger] sites[j] as int),
        boundary(chunk.code, target),
        target <= chunk.code.len(),
        target < 0x1_0000,
    ensures
        same_layout(chunk.code, patch_all(chunk, sites, target).code),
        patch_all(chunk, sites, target).constants == chunk.constants,
        patch_all(chunk, sites, target).name == chunk.name,
        patch_all(chunk, sites, target).param_count == chunk.param_count,
        patch_all(chunk, sites, target).lines == chunk.lines,
    decreases sites.len(),
{
    if sites.len() == 0 {
        lemma_same_layout_refl(chunk.code);
    } else {
        let before = sites.drop_last();
        let site = sites.last() as int;
        assert forall|j: int| 0 <= j < before.len() implies operand_site(
            chunk.code,
            #[trigger] before[j] as int,
        ) by {
            assert(before[j] == sites[j]);
        }
        lemma_patch_all(chunk, before, target);
        let mid = patch_all(chunk, before, target);
        let out = patch_all(chunk, sites, target);
        assert(out.code == patched(mid.code, site, target));
        assert(operand_site(chunk.code, sites[sites.len() - 1] as int));
        assert(operand_site(mid.code, site) && boundary(mid.code, target) && mid.code.len()
            == chunk.code.len()) by {
            reveal(same_layout);
        }
        lemma_patch_layout(mid.code, site, target);
        lemma_same_layout_trans(chunk.code, mid.code, out.code);
    }
}

/// All placeholders of a list are given a target that is a boundary:
/// their jumps are settled then.
pub proof fn lemma_patch_all_settles(chunk: ChunkModel, sites: Seq<usize>, target: int, j: int)
    requires
        forall|j: int| 0 <= j < sites.len() ==> operand_site(chunk.code, #[trigger] sites[j] as int),
        boundary(chunk.code, target),
        target <= chunk.code.len(),
        target < 0x1_0000,
        0 <= j < sites.len(),
    ensures
        settled(patch_all(chunk, sites, target).code, sites[j] - 1),
    decreases sites.len(),
{
    let before = sites.drop_last();
    let site = sites.last() as int;
    assert forall|k: int| 0 <= k < before.len() implies operand_site(
        chunk.code,
        #[trigger] before[k] as int,
    ) by {
        assert(before[k] == sites[k]);
    }
    lemma_patch_all(chunk, before, target);
    let mid = patch_all(chunk, before, target);
    let out = patch_all(chunk, sites, target);
    assert(out.code == patched(mid.code, site, target));
    assert(operand_site(chunk.code, sites[sites.len() - 1] as int));
    assert(operand_site(chunk.code, sites[j] as int));
    assert(operand_site(mid.code, site) && operand_site(mid.code, sites[j] as int) && boundary(
        mid.code,
        target,
    ) && mid.code.len() == chunk.code.len()) by {
        reveal(same_layout);
    }
    lemma_patch_layout(mid.code, site, target);
    if j < sites.len() - 1 {
        assert(before[j] == sites[j]);
        lemma_patch_all_settles(chunk, before, target, j);
        lemma_settled_patch(mid.code, site, target, sites[j] - 1);
    }
}

/// All placeholders of a list are given a target: no byte changes but theirs.
pub proof fn lemma_patch_all_elsewhere(chunk: ChunkModel, sites: Seq<usize>, target: int, i: int)
    requires
        0 <= i < chunk.code.len(),
        forall|j: int| 0 <= j < sites.len() ==> i != #[trigger] sites[j] && i != sites[j] + 1,
    ensures
        patch_all(chunk, sites, target).code.len() == chunk.code.len(),
        patch_all(chunk, sites, target).code[i] == chunk.code[i],
    decreases sites.len(),
{
    lemma_patch_all_len(chunk, sites, target);
    if sites.len() > 0 {
        let before = sites.drop_last();
        assert(i != sites[sites.len() - 1] && i != sites[sites.len() - 1] + 1);
        assert forall|j: int| 0 <= j < before.len() implies i != #[trigger] before[j] && i
            != before[j] + 1 by {
            assert(before[j] == sites[j]);
        }
        lemma_patch_all_elsewhere(chunk, before, target, i);
        lemma_patch_all_len(chunk, before, target);
    }
}

/// Patches change nothing but bytes of the code.
pub proof fn lemma_patch_all_len(chunk: ChunkModel, sites: Seq<usize>, target: int)
    ensures
        patch_all(chunk, sites, target).code.len() == chunk.code.len(),
        patch_all(chunk, sites, target).constants == chunk.constants,
        patch_all(chunk, sites, target).name == chunk.name,
        patch_all(chunk, sites, target).param_count == chunk.param_count,
        patch_all(chunk, sites, target).lines == chunk.lines,
    decreases sites.len(),
{
    if sites.len() > 0 {
        lemma_patch_all_len(chunk, sites.drop_last(), target);
    }
}

/// An instruction with two operand bytes at a boundary, whose operand
/// is settled as a target, stays so under a patch elsewhere or at itself.
proof fn lemma_settled_patch(code: Seq<u8>, site: int, target: int, at: int)
    requires
        operand_site(code, site),
        boundary(code, target),
        target <= code.len(),
        target < 0x1_0000,
        0 <= at,
        settled(code, at),
        boundary(code, at),
        width_at(code, at) == 3,
    ensures
        settled(patched(code, site, target), at),
{
    let b = patched(code, site, target);
    assert(differ_at(code, b, site));
    lemma_target_bytes(target);
    lemma_patch_boundary(code, b, site, target);
    if at != site - 1 {
        if at == site {
            lemma_not_inside(code, site - 1, at);
        }
        if at + 2 == site {
            lemma_not_inside(code, at, site - 1);
        }
        lemma_patch_boundary(code, b, site, target_at(code, at));
    }
}

/// Fewer placeholders need to wait when the jumps of the others are settled.
pub proof fn lemma_tidy_shrink(code: Seq<u8>, pending: Set<int>, fewer: Set<int>)
    requires
        tidy_code(code, pending),
        forall|p: int| fewer.contains(p) ==> pending.contains(p),
        forall|p: int| #[trigger] pending.contains(p) && !fewer.contains(p) ==> settled(code, p - 1),
    ensures
        tidy_code(code, fewer),
{
    reveal(tidy_code);
    assert forall|at: int| boundary(code, at) && #[trigger] is_jump_at(code, at) implies settled(
        code,
        at,
    ) || fewer.contains(at + 1) by {
        if !settled(code, at) {
            assert(pending.contains(at + 1));
        }
    }
}

} // verus!

//! The layout of bytecode: where instructions start, and where jumps lead.

use vstd::prelude::*;
use crate::chunk::target_of;
use crate::opcode::OpCode;

verus! {

/// The number of bytes of the instruction at `at`: one, and its operands.
/// A byte that is no instruction counts as one without operands.
pub open spec fn width_at(code: Seq<u8>, at: int) -> int {
    1 + (match OpCode::decode(code[at]) {
        Some(op) => op.operand_len() as int,
        None => 0,
    })
}

/// Whether going from instruction to instruction, starting at `from`,
/// comes to `to`.
pub open spec fn reaches(code: Seq<u8>, from: int, to: int) -> bool
    decreases
        (if from < to {
            to - from
        } else {
            0
        }),
{
    if from == to {
        true
    } else if from < 0 || from > to || from >= code.len() {
        false
    } else {
        reaches(code, from + width_at(code, from), to)
    }
}

/// Whether an instruction starts at `at`, or the code ends there after a
/// whole instruction.
pub open spec fn boundary(code: Seq<u8>, at: int) -> bool {
    0 <= at && reaches(code, 0, at)
}

/// Whether the byte at `at` is a jump instruction.
pub open spec fn is_jump_at(code: Seq<u8>, at: int) -> bool {
    0 <= at < code.len() && (match OpCode::decode(code[at]) {
        Some(op) => op.is_jump(),
        None => false,
    })
}

/// The target of the jump at `at`.
pub open spec fn target_at(code: Seq<u8>, at: int) -> int {
    target_of(code[at + 1], code[at + 2])
}

/// Whether the jump at `at` leads to an instruction of the code, or to
/// its end.
pub open spec fn settled(code: Seq<u8>, at: int) -> bool {
    at + 2 < code.len() && target_at(code, at) <= code.len() && boundary(code, target_at(code, at))
}

/// Whether the byte at `at` is an instruction.
pub open spec fn is_op_at(code: Seq<u8>, at: int) -> bool {
    OpCode::decode(code[at]) is Some
}

/// Whether the code consists of whole instructions, each of which
/// starts with a byte that is an instruction, and every jump in it leads
/// to the start of one of them.
#[verifier::opaque]
pub open spec fn jumps_valid(code: Seq<u8>) -> bool {
    &&& boundary(code, code.len() as int)
    &&& forall|at: int| 0 <= at < code.len() && boundary(code, at) ==> #[trigger] is_op_at(code, at)
    &&& forall|at: int|
        boundary(code, at) && #[trigger] is_jump_at(code, at) ==> settled(code, at) && target_at(
            code,
            at,
        ) < code.len()
}

/// Whether two codes hold the same bytes from `from` up to `to`.
pub open spec fn agree(a: Seq<u8>, b: Seq<u8>, from: int, to: int) -> bool {
    &&& to <= a.len()
    &&& to <= b.len()
    &&& forall|i: int| from <= i < to ==> a[i] == b[i]
}

/// Going from `from` to `to` reads the bytes between them only.
pub proof fn lemma_reaches_agree(a: Seq<u8>, b: Seq<u8>, from: int, to: int)
    requires
        agree(a, b, from, to),
        0 <= from,
    ensures
        reaches(a, from, to) == reaches(b, from, to),
    decreases
        (if from < to {
            to - from
        } else {
            0
        }),
{
    if from < to {
        assert(a[from] == b[from]);
        lemma_reaches_agree(a, b, from + width_at(a, from), to);
    }
}

pub proof fn lemma_reaches_trans(code: Seq<u8>, a: int, b: int, c: int)
    requires
        reaches(code, a, b),
        reaches(code, b, c),
    ensures
        reaches(code, a, c),
    decreases
        (if a < b {
            b - a
        } else {
            0
        }),
{
    if a != b {
        lemma_reaches_from_to(code, b, c);
        lemma_reaches_trans(code, a + width_at(code, a), b, c);
    }
}

/// What is reached lies no earlier than the start.
pub proof fn lemma_reaches_from_to(code: Seq<u8>, from: int, to: int)
    requires
        reaches(code, from, to),
    ensures
        from <= to,
{
}

/// From the start of an instruction, the start of the next is reached.
pub proof fn lemma_reaches_step(code: Seq<u8>, at: int)
    requires
        0 <= at < code.len(),
    ensures
        reaches(code, at, at + width_at(code, at)),
{
    let next = at + width_at(code, at);
    assert(reaches(code, next, next));
}

/// There is one way only: of two places reached from the same start, the
/// later is reached from the earlier.
pub proof fn lemma_reaches_linear(code: Seq<u8>, a: int, b: int, c: int)
    requires
        reaches(code, a, b),
        reaches(code, a, c),
        b <= c,
    ensures
        reaches(code, b, c),
    decreases
        (if a < b {
            b - a
        } else {
            0
        }),
{
    if a != b {
        lemma_reaches_linear(code, a + width_at(code, a), b, c);
    }
}

/// No instruction starts inside another.
pub proof fn lemma_not_inside(code: Seq<u8>, at: int, s: int)
    requires
        boundary(code, at),
        at < s < at + width_at(code, at),
    ensures
        !boundary(code, s),
{
    if boundary(code, s) {
        lemma_reaches_linear(code, 0, at, s);
        if at < code.len() {
            lemma_reaches_from_to(code, at + width_at(code, at), s);
        }
    }
}

/// The instruction after a boundary starts at a boundary.
pub proof fn lemma_boundary_next(code: Seq<u8>, at: int)
    requires
        boundary(code, at),
        at < code.len(),
    ensures
        boundary(code, at + width_at(code, at)),
{
    lemma_reaches_step(code, at);
    lemma_reaches_trans(code, 0, at, at + width_at(code, at));
}

/// Whether two codes of the same length differ at most in the two bytes
/// at `site` and after it.
pub open spec fn differ_at(a: Seq<u8>, b: Seq<u8>, site: int) -> bool {
    &&& a.len() == b.len()
    &&& forall|i: int| 0 <= i < a.len() && i != site && i != site + 1 ==> a[i] == b[i]
}

/// Whether the two bytes at `site` are the operand of an instruction
/// with two operand bytes that starts at a boundary.
pub open spec fn operand_site(code: Seq<u8>, site: int) -> bool {
    &&& 1 <= site
    &&& site + 1 < code.len()
    &&& boundary(code, site - 1)
    &&& width_at(code, site - 1) == 3
}

proof fn lemma_patch_from(a: Seq<u8>, b: Seq<u8>, site: int, from: int, to: int)
    requires
        differ_at(a, b, site),
        operand_site(a, site),
        boundary(a, from),
    ensures
        reaches(b, from, to) == reaches(a, from, to),
    decreases
        (if from < to {
            to - from
        } else {
            0
        }),
{
    if from < to && from < a.len() {
        if from == site || from == site + 1 {
            lemma_not_inside(a, site - 1, from);
        }
        assert(a[from] == b[from]);
        lemma_boundary_next(a, from);
        lemma_patch_from(a, b, site, from + width_at(a, from), to);
    }
}

/// Changing the operand of an instruction moves no boundary.
pub proof fn lemma_patch_boundary(a: Seq<u8>, b: Seq<u8>, site: int, to: int)
    requires
        differ_at(a, b, site),
        operand_site(a, site),
    ensures
        boundary(b, to) == boundary(a, to),
        operand_site(b, site),
{
    lemma_patch_from(a, b, site, 0, to);
    lemma_patch_from(a, b, site, 0, site - 1);
    assert(a[site - 1] == b[site - 1]);
}

/// After whole instructions, more code moves no boundary.
pub proof fn lemma_extend_boundary(a: Seq<u8>, b: Seq<u8>, to: int)
    requires
        agree(a, b, 0, a.len() as int),
        0 <= to <= a.len(),
    ensures
        boundary(b, to) == boundary(a, to),
{
    assert(agree(a, b, 0, to));
    lemma_reaches_agree(a, b, 0, to);
}

/// An instruction put after whole instructions ends at a boundary.
pub proof fn lemma_append_boundary(a: Seq<u8>, b: Seq<u8>)
    requires
        agree(a, b, 0, a.len() as int),
        boundary(a, a.len() as int),
        a.len() < b.len(),
        b.len() == a.len() + width_at(b, a.len() as int),
    ensures
        boundary(b, b.len() as int),
        forall|s: int| a.len() < s < b.len() ==> !boundary(b, s),
{
    lemma_extend_boundary(a, b, a.len() as int);
    lemma_boundary_next(b, a.len() as int);
    assert forall|s: int| a.len() < s < b.len() implies !boundary(b, s) by {
        lemma_not_inside(b, a.len() as int, s);
    }
}

} // verus!

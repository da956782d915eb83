//! How high the stack stands at each instruction of a chunk.

use vstd::prelude::*;
use crate::chunk::ChunkModel;
use crate::layout::{boundary, jumps_valid, target_at};
use crate::lowering::TableModel;
use crate::opcode::OpCode;
use crate::shape::CODE_LIMIT;

verus! {

/// The height of the stack after an instruction with the operand bytes
/// `a` and `b` that finds the stack at the height `h`.
pub open spec fn height_after(op: OpCode, a: u8, b: u8, h: int) -> int {
    match op {
        OpCode::PushConst | OpCode::PushTrue | OpCode::PushFalse | OpCode::PushNone
        | OpCode::Load => h + 1,
        OpCode::Store | OpCode::Print | OpCode::Pop | OpCode::JumpIfFalse | OpCode::JumpIfTrue
        | OpCode::Return => h - 1,
        OpCode::Add | OpCode::Sub | OpCode::Mul | OpCode::Div | OpCode::Mod | OpCode::Eq
        | OpCode::Neq | OpCode::Lt | OpCode::Lte | OpCode::Gt | OpCode::Gte
        | OpCode::GetIndex => h - 1,
        OpCode::Call => h - b + 1,
        OpCode::MakeArray => h - a + 1,
        OpCode::MakeDict => h - 2 * a + 1,
        OpCode::SetIndex => h - 2,
        _ => h,
    }
}

/// Whether the heights `hs`, one for each position of the code, fit the
/// instruction at `at`: the instruction that follows it, and the one that
/// it jumps to, stand at the height that it leaves; a function, and no
/// main chunk, returns with its result alone on its part of the stack, or
/// with nothing; and `HALT` stands in a main chunk only, with nothing on
/// the stack.  A jump
/// whose placeholder is in `pending` has no target yet; one whose
/// placeholder a loop has recorded, in `marked`, is a plain jump between
/// statements.
pub open spec fn level_at(
    code: Seq<u8>,
    hs: Seq<int>,
    pending: Set<int>,
    marked: Set<int>,
    main: bool,
    at: int,
) -> bool {
    match OpCode::decode(code[at]) {
        None => !pending.contains(at + 1) && !marked.contains(at + 1),
        Some(op) => {
            let next = at + 1 + op.operand_len();
            let k = height_after(op, code[at + 1], code[at + 2], hs[at]);
            &&& pending.contains(at + 1) ==> op.is_jump()
            &&& marked.contains(at + 1) ==> op == OpCode::Jump && hs[at] == 0
            &&& match op {
                OpCode::Jump => pending.contains(at + 1) || hs[target_at(code, at)] == k,
                OpCode::JumpIfFalse | OpCode::JumpIfTrue | OpCode::PeekJumpIfFalse
                | OpCode::PeekJumpIfTrue => hs[next] == k && (pending.contains(at + 1)
                    || hs[target_at(code, at)] == k),
                OpCode::Return => hs[at] == 1 && !main,
                OpCode::ReturnNone => hs[at] == 0 && !main,
                OpCode::Halt => hs[at] == 0 && main,
                _ => hs[next] == k,
            }
        },
    }
}

/// Whether the heights fit every instruction of the code.
#[verifier::opaque]
pub open spec fn levels(
    code: Seq<u8>,
    hs: Seq<int>,
    pending: Set<int>,
    marked: Set<int>,
    main: bool,
) -> bool {
    &&& hs.len() == code.len() + 1
    &&& forall|at: int|
        0 <= at < code.len() && boundary(code, at) ==> #[trigger] level_at(
            code,
            hs,
            pending,
            marked,
            main,
            at,
        )
}

/// Whether the heights fit the chunk: they fit every instruction, and the
/// chunk starts with its arguments on the stack, of which a main chunk
/// has none.
pub open spec fn chunk_levels(chunk: ChunkModel, hs: Seq<int>, main: bool) -> bool {
    &&& levels(chunk.code, hs, Set::empty(), Set::empty(), main)
    &&& hs[0] == chunk.param_count
    &&& main ==> chunk.param_count == 0
}

/// Whether every instruction of the chunk finds the stack at one height,
/// by whatever way it is reached.
pub open spec fn chunk_even(chunk: ChunkModel, main: bool) -> bool {
    exists|hs: Seq<int>| chunk_levels(chunk, hs, main)
}

/// Whether every chunk of the table is even, as the chunk of a function.
pub open spec fn table_even(table: TableModel) -> bool {
    forall|i: int| 0 <= i < table.len() ==> chunk_even((#[trigger] table[i]).1, false)
}

/// Whether a chunk can run: its code is within the limit, its jumps lead
/// to instructions, and its instructions find the stack at one height.
pub open spec fn fit(chunk: ChunkModel, main: bool) -> bool {
    &&& chunk.code.len() <= CODE_LIMIT
    &&& jumps_valid(chunk.code)
    &&& exists|hs: Seq<int>| chunk_levels(chunk, hs, main)
}

/// The heights of a chunk that can run.
pub open spec fn heights(chunk: ChunkModel, main: bool) -> Seq<int> {
    choose|hs: Seq<int>| chunk_levels(chunk, hs, main)
}

/// Whether every chunk of the table can run as a function.
pub open spec fn table_fit(table: TableModel) -> bool {
    forall|i: int| 0 <= i < table.len() ==> fit((#[trigger] table[i]).1, false)
}

/// A function that is found in a table is one of its chunks.
pub proof fn lemma_found_fit(table: TableModel, name: Seq<char>)
    requires
        table_fit(table),
        crate::lowering::find_function(table, name) is Some,
    ensures
        fit(crate::lowering::find_function(table, name)->0, false),
    decreases table.len(),
{
    if table.len() > 0 && table[0].0 != name {
        let rest = table.skip(1);
        assert forall|i: int| 0 <= i < rest.len() implies fit((#[trigger] rest[i]).1, false) by {
            assert(rest[i] == table[i + 1]);
        }
        lemma_found_fit(rest, name);
    }
}

/// Defining a chunk that can run keeps the table so.
pub proof fn lemma_define_fit(table: TableModel, name: Seq<char>, chunk: ChunkModel)
    requires
        table_fit(table),
        fit(chunk, false),
    ensures
        table_fit(crate::lowering::define_function(table, name, chunk)),
    decreases table.len(),
{
    let after = crate::lowering::define_function(table, name, chunk);
    if table.len() == 0 {
    } else if table[0].0 == name {
        assert forall|i: int| 0 <= i < after.len() implies fit((#[trigger] after[i]).1, false) by {
            if i > 0 {
                assert(after[i] == table[i]);
            }
        }
    } else {
        let rest = table.skip(1);
        assert(table_fit(rest)) by {
            assert forall|i: int| 0 <= i < rest.len() implies fit(
                (#[trigger] rest[i]).1,
                false,
            ) by {
                assert(rest[i] == table[i + 1]);
            }
        }
        lemma_define_fit(rest, name, chunk);
        let inner = crate::lowering::define_function(rest, name, chunk);
        assert forall|i: int| 0 <= i < after.len() implies fit((#[trigger] after[i]).1, false) by {
            if i == 0 {
                assert(after[0] == table[0]);
            } else {
                assert(after[i] == inner[i - 1]);
            }
        }
    }
}

} // verus!

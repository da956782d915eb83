//! The stack of a running machine stands as high as the chunks of its
//! frames say, and a program that ends leaves nothing on it.

use vstd::prelude::*;
use crate::builtins::builtin_named;
use crate::chunk::ChunkModel;
use crate::error::ErrorModel;
use crate::layout::{
    boundary, is_jump_at, jumps_valid, lemma_boundary_next, settled, target_at,
};
use crate::level::{
    chunk_levels, fit, heights, lemma_define_fit, lemma_found_fit, level_at, levels, table_fit,
};
use crate::lowering::{TableModel, find_function};
use crate::machine::{
    Decoded, FrameModel, ReplyModel, Signal, VmModel, call_model, decode_next, define_all,
    deliver_model, execute, fits, loaded, name_at, run_model, step_model, take_pairs,
};
use crate::opcode::OpCode;
use crate::value::Data;

verus! {

/// What the frames account for of the stack: each the height at which its
/// next instruction stands, less the one value that it waits for.
pub open spec fn held_by(frames: Seq<FrameModel>) -> int
    decreases frames.len(),
{
    if frames.len() == 0 {
        0
    } else {
        held_by(frames.drop_last()) + heights(
            frames.last().chunk,
            frames.len() == 1,
        )[frames.last().ip] - 1
    }
}

/// Whether a frame's chunk can run, and its next instruction is one of
/// the chunk, or its end.
pub open spec fn frame_fit(f: FrameModel, main: bool) -> bool {
    &&& fit(f.chunk, main)
    &&& 0 <= f.ip <= f.chunk.code.len()
    &&& boundary(f.chunk.code, f.ip)
}

/// Whether the machine is in balance: every chunk in it can run, the
/// first frame alone runs a main chunk, and the stack is as high as the
/// frames account for.  The running frame waits for no value, unless a
/// request is under way; a machine without frames has nothing on its
/// stack.
pub open spec fn balanced(m: VmModel) -> bool {
    &&& forall|i: int| 0 <= i < m.frames.len() ==> frame_fit(#[trigger] m.frames[i], i == 0)
    &&& table_fit(m.functions)
    &&& m.frames.len() > 0 ==> m.stack.len() == held_by(m.frames) + (if m.pending is Some {
        0int
    } else {
        1int
    })
    &&& m.frames.len() == 0 ==> m.pending is None && m.stack.len() == 0
}

/// Whether `r` differs from `m` in the running frame's position, which
/// is `x`, and in values only.
pub open spec fn moved(m: VmModel, r: VmModel, x: int) -> bool {
    &&& r.frames.len() == m.frames.len()
    &&& forall|i: int| 0 <= i < m.frames.len() - 1 ==> r.frames[i] == m.frames[i]
    &&& r.top().chunk == m.top().chunk
    &&& r.top().ip == x
    &&& r.functions == m.functions
}

/// A step within the running frame keeps the balance, if the stack
/// changes as the heights of the chunk say.
proof fn lemma_moved(m: VmModel, r: VmModel, x: int)
    requires
        balanced(m),
        m.frames.len() > 0,
        m.pending is None,
        moved(m, r, x),
        0 <= x <= m.top().chunk.code.len(),
        boundary(m.top().chunk.code, x),
        r.stack.len() + (if r.pending is Some {
            1int
        } else {
            0int
        }) == m.stack.len() + heights(m.top().chunk, m.frames.len() == 1)[x] - heights(
            m.top().chunk,
            m.frames.len() == 1,
        )[m.top().ip],
    ensures
        balanced(r),
{
    assert(r.frames.drop_last() =~= m.frames.drop_last());
    assert forall|i: int| 0 <= i < r.frames.len() implies frame_fit(
        #[trigger] r.frames[i],
        i == 0,
    ) by {
        assert(frame_fit(m.frames[i], i == 0));
    }
}

/// The pairs that are taken from the stack are two values each.
proof fn lemma_take_pairs_len(stack: Seq<Data>, count: nat, line: usize)
    requires
        take_pairs(stack, count, line) is Ok,
    ensures
        take_pairs(stack, count, line)->Ok_0.1.len() == stack.len() - 2 * count,
    decreases count,
{
    if count > 0 {
        lemma_take_pairs_len(stack.take(stack.len() - 2), (count - 1) as nat, line);
    }
}

/// A call keeps the balance: a built-in function leaves its result in
/// place of its arguments, or owes it while its request is under way; a
/// function of the program starts with its arguments on the stack.
proof fn lemma_call_balanced(m: VmModel, i: Decoded)
    requires
        balanced(m),
        m.frames.len() > 0,
        m.pending is None,
        decode_next(m.top()) == Ok::<Decoded, ErrorModel>(i),
        i.op == OpCode::Call,
        call_model(m.at(i.next), i) is Ok,
    ensures
        balanced(call_model(m.at(i.next), i)->Ok_0.0),
        !(call_model(m.at(i.next), i)->Ok_0.1 is Halted),
{
    let f = m.top();
    let main = m.frames.len() == 1;
    let code = f.chunk.code;
    let hs = heights(f.chunk, main);
    let m1 = m.at(i.next);
    let r = call_model(m1, i)->Ok_0.0;
    assert(frame_fit(m.frames[m.frames.len() - 1], main));
    assert(chunk_levels(f.chunk, hs, main));
    assert(level_at(code, hs, Set::empty(), Set::empty(), main, f.ip)) by {
            reveal(levels);
        }
    lemma_boundary_next(code, f.ip);
    let name = name_at(m1.top().chunk, i.a)->0;
    let argc = i.b as int;
    assert(hs[i.next] == hs[f.ip] - argc + 1);
    assert(moved(m, m1, i.next));
    match builtin_named(name) {
        Some(b) => {
            assert(moved(m, r, i.next));
            lemma_moved(m, r, i.next);
        },
        None => {
            let chunk = find_function(m.functions, name)->0;
            lemma_found_fit(m.functions, name);
            let fresh = FrameModel { chunk, ip: 0, locals: Seq::empty() };
            assert(r.frames == m1.frames.push(fresh));
            assert(r.frames.drop_last() =~= m1.frames);
            assert(m1.frames.drop_last() =~= m.frames.drop_last());
            assert(chunk_levels(chunk, heights(chunk, false), false));
            assert(boundary(chunk.code, 0));
            assert(held_by(r.frames) == held_by(m1.frames) + heights(chunk, false)[0] - 1);
            assert(held_by(m1.frames) == held_by(m.frames.drop_last()) + hs[i.next] - 1);
            assert(held_by(m.frames) == held_by(m.frames.drop_last()) + hs[f.ip] - 1);
            assert forall|j: int| 0 <= j < r.frames.len() implies frame_fit(
                #[trigger] r.frames[j],
                j == 0,
            ) by {
                if j < m.frames.len() - 1 {
                    assert(frame_fit(m.frames[j], j == 0));
                }
            }
        },
    }
}

/// A step keeps the balance, and a program that ends has nothing on the
/// stack.
pub proof fn lemma_step_balanced(m: VmModel)
    requires
        balanced(m),
        step_model(m) is Ok,
    ensures
        balanced(step_model(m)->Ok_0.0),
        step_model(m)->Ok_0.1 is Halted ==> step_model(m)->Ok_0.0.frames.len() == 0
            && step_model(m)->Ok_0.0.stack.len() == 0,
{
    if m.pending is None && m.frames.len() > 0 {
        let f = m.top();
        let main = m.frames.len() == 1;
        let code = f.chunk.code;
        let hs = heights(f.chunk, main);
        let i = decode_next(f)->Ok_0;
        let m1 = m.at(i.next);
        let r = execute(m1, i)->Ok_0.0;
        assert(frame_fit(m.frames[m.frames.len() - 1], main));
        assert(chunk_levels(f.chunk, hs, main));
        assert(level_at(code, hs, Set::empty(), Set::empty(), main, f.ip)) by {
            reveal(levels);
        }
        lemma_boundary_next(code, f.ip);
        assert(moved(m, m1, i.next));
        if i.op.is_jump() {
            assert(is_jump_at(code, f.ip));
            assert(settled(code, f.ip) && target_at(code, f.ip) < code.len()) by {
                reveal(jumps_valid);
            }
            assert(target_at(code, f.ip) == crate::chunk::target_of(i.a, i.b));
        }
        match i.op {
            OpCode::Call => {
                lemma_call_balanced(m, i);
            },
            OpCode::Return | OpCode::Halt => {
                assert(r.frames =~= m.frames.drop_last());
                assert(held_by(m.frames) == held_by(m.frames.drop_last()) + hs[f.ip] - 1);
                assert(held_by(Seq::<FrameModel>::empty()) == 0);
                assert forall|j: int| 0 <= j < r.frames.len() implies frame_fit(
                    #[trigger] r.frames[j],
                    j == 0,
                ) by {
                    assert(frame_fit(m.frames[j], j == 0));
                }
            },
            OpCode::ReturnNone => {
                assert(r.frames =~= m.frames.drop_last());
                assert(held_by(m.frames) == held_by(m.frames.drop_last()) + hs[f.ip] - 1);
                assert(held_by(Seq::<FrameModel>::empty()) == 0);
                assert forall|j: int| 0 <= j < r.frames.len() implies frame_fit(
                    #[trigger] r.frames[j],
                    j == 0,
                ) by {
                    assert(frame_fit(m.frames[j], j == 0));
                }
            },
            OpCode::MakeDict => {
                lemma_take_pairs_len(m1.stack, i.a as nat, i.line);
                assert(moved(m, r, i.next));
                lemma_moved(m, r, i.next);
            },
            _ => {
                let x = r.top().ip;
                assert(moved(m, r, x));
                lemma_moved(m, r, x);
            },
        }
    }
}

/// Steps keep the balance, and a program that ends has nothing on the
/// stack.
pub proof fn lemma_run_balanced(m: VmModel, budget: nat)
    requires
        balanced(m),
        run_model(m, budget) is Ok,
    ensures
        balanced(run_model(m, budget)->Ok_0.0),
        run_model(m, budget)->Ok_0.1 is Halted ==> run_model(m, budget)->Ok_0.0.frames.len() == 0
            && run_model(m, budget)->Ok_0.0.stack.len() == 0,
    decreases budget,
{
    if budget > 0 {
        lemma_step_balanced(m);
        match step_model(m) {
            Ok((next, Signal::Continue)) => {
                lemma_run_balanced(next, (budget - 1) as nat);
            },
            _ => {},
        }
    }
}

/// The answer to a request keeps the balance: the value that was owed
/// lies on the stack.
pub proof fn lemma_deliver_balanced(m: VmModel, reply: ReplyModel)
    requires
        balanced(m),
        m.pending is Some,
        fits(m.pending->0, reply),
        deliver_model(m, reply) is Ok,
    ensures
        balanced(deliver_model(m, reply)->Ok_0),
{
}

/// Defining functions that can run keeps the table so.
pub proof fn lemma_define_all_fit(table: TableModel, more: TableModel)
    requires
        table_fit(table),
        table_fit(more),
    ensures
        table_fit(define_all(table, more)),
    decreases more.len(),
{
    if more.len() > 0 {
        let rest = more.skip(1);
        assert forall|i: int| 0 <= i < rest.len() implies fit((#[trigger] rest[i]).1, false) by {
            assert(rest[i] == more[i + 1]);
        }
        lemma_define_all_fit(table, rest);
        assert(fit(more[0].1, false));
        lemma_define_fit(define_all(table, rest), more[0].0, more[0].1);
    }
}

/// A machine into which a program has been loaded is in balance, if the
/// chunks of the program and the functions that the machine had can run.
pub proof fn lemma_loaded_balanced(m: VmModel, main_chunk: ChunkModel, table: TableModel)
    requires
        table_fit(m.functions),
        table_fit(table),
        fit(main_chunk, true),
    ensures
        balanced(loaded(m, main_chunk, table)),
{
    let r = loaded(m, main_chunk, table);
    lemma_define_all_fit(m.functions, table);
    assert(boundary(main_chunk.code, 0));
    assert(chunk_levels(main_chunk, heights(main_chunk, true), true));
    assert(r.frames.drop_last() =~= Seq::<FrameModel>::empty());
    assert(held_by(Seq::<FrameModel>::empty()) == 0);
    assert(held_by(r.frames) == held_by(r.frames.drop_last()) + heights(main_chunk, true)[0] - 1);
}

} // verus!

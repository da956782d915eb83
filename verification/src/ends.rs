//! A program that runs to its end leaves nothing on the stack.

use vstd::prelude::*;
use crate::ast::Stmt;
use crate::balance::{lemma_loaded_balanced, lemma_run_balanced};
use crate::chunk::ChunkModel;
use crate::even::{even, marks, raised};
use crate::frames::{lemma_longer_len, lemma_longer_of_grows, lemma_longer_trans, longer};
use crate::level::{chunk_even, chunk_levels, fit, levels, table_even, table_fit};
use crate::lowering::{
    CompilerModel, TableModel, define_function, empty_chunk, initial, lower_block, lower_function,
    lower_functions, lower_params, lower_program,
};
use crate::machine::{VmModel, loaded, run_model};
use crate::opcode::OpCode;
use crate::rise::{
    index_of, lemma_rise_constant, lemma_rise_plain, lemma_rises_refl, lemma_rises_trans, rises,
};
use crate::shape::{CODE_LIMIT, tidy, waiting};
use crate::sound::{
    chunk_sound, lemma_block_sound, lemma_empty_tidy, lemma_functions_sound, lemma_params_sound,
    lemma_program_sound, table_sound,
};
use crate::steady::{leaves_block, lemma_block_rise};
use crate::steps::lemma_emit_constant;
use crate::value::Data;

verus! {

/// Defining an even chunk keeps the table even.
pub proof fn lemma_define_even(table: TableModel, name: Seq<char>, chunk: ChunkModel)
    requires
        table_even(table),
        chunk_even(chunk, false),
    ensures
        table_even(define_function(table, name, chunk)),
    decreases table.len(),
{
    let after = define_function(table, name, chunk);
    if table.len() == 0 {
    } else if table[0].0 == name {
        assert forall|i: int| 0 <= i < after.len() implies chunk_even(
            (#[trigger] after[i]).1,
            false,
        ) by {
            if i > 0 {
                assert(after[i] == table[i]);
            }
        }
    } else {
        let rest = table.skip(1);
        assert(table_even(rest)) by {
            assert forall|i: int| 0 <= i < rest.len() implies chunk_even(
                (#[trigger] rest[i]).1,
                false,
            ) by {
                assert(rest[i] == table[i + 1]);
            }
        }
        lemma_define_even(rest, name, chunk);
        let inner = define_function(rest, name, chunk);
        assert forall|i: int| 0 <= i < after.len() implies chunk_even(
            (#[trigger] after[i]).1,
            false,
        ) by {
            if i == 0 {
                assert(after[0] == table[0]);
            } else {
                assert(after[i] == inner[i - 1]);
            }
        }
    }
}

/// The code that stores the parameters takes the arguments off the stack.
proof fn lemma_params_rise(
    c: CompilerModel,
    params: Seq<String>,
    line: usize,
    hs: Seq<int>,
) -> (later: Seq<int>)
    requires
        tidy(c, Set::empty()),
        even(c, hs, Set::empty(), false),
        lower_params(c, params, line) is Ok,
    ensures
        rises(
            c,
            lower_params(c, params, line)->Ok_0,
            hs,
            later,
            Set::empty(),
            -(params.len() as int),
            false,
        ),
    decreases params.len(),
{
    let held = Set::<int>::empty();
    lemma_rises_refl(c, hs, held, false);
    if params.len() == 0 {
        hs
    } else {
        let v = Data::Str(params.last()@);
        lemma_rise_constant(c, c, hs, hs, held, OpCode::Store, v, line, 0, false);
        lemma_emit_constant(c, held, OpCode::Store, v, line);
        let c1 = c.emit_with_constant(OpCode::Store, v, line)->Ok_0;
        let h1 = raised(hs, OpCode::Store, index_of(c, v), 0);
        let later = lemma_params_rise(c1, params.drop_last(), line, h1);
        let d = lower_params(c1, params.drop_last(), line)->Ok_0;
        lemma_params_sound(c1, params.drop_last(), line);
        lemma_longer_len(c1, d);
        lemma_rises_trans(c, c1, d, hs, h1, later, held, -1, -(params.len() - 1), false);
        later
    }
}

/// Code that is whole, with no loop open and no placeholder held, makes
/// an even chunk.
proof fn lemma_whole(
    c: CompilerModel,
    d: CompilerModel,
    hs: Seq<int>,
    later: Seq<int>,
    by: int,
    main: bool,
)
    requires
        rises(c, d, hs, later, Set::empty(), by, main),
        longer(c, d),
        c.offset() == 0,
        c.loops.len() == 0,
        hs[0] == c.current.param_count,
        main ==> c.current.param_count == 0,
        d.current.code.len() <= CODE_LIMIT,
    ensures
        chunk_even(d.current, main),
{
    reveal(longer);
    assert(waiting(d, Set::empty()) =~= Set::<int>::empty());
    assert(marks(d.loops) =~= Set::<int>::empty());
    assert(chunk_levels(d.current, later, main));
}

/// A function is compiled into an even chunk.
pub proof fn lemma_function_even(
    c: CompilerModel,
    name: Seq<char>,
    params: Seq<String>,
    body: Seq<Stmt>,
    line: usize,
)
    requires
        c.loops.len() == 0,
        table_even(c.functions),
        params.len() <= usize::MAX,
        lower_function(c, name, params, body, line) is Ok,
    ensures
        table_even(lower_function(c, name, params, body, line)->Ok_0.functions),
{
    let held = Set::<int>::empty();
    let start = CompilerModel { current: empty_chunk(name, params.len() as usize), ..c };
    let hs = seq![params.len() as int];
    lemma_empty_tidy(start);
    assert(even(start, hs, held, false)) by {
        reveal(levels);
    }
    let h1 = lemma_params_rise(start, params, line, hs);
    lemma_params_sound(start, params, line);
    let c1 = lower_params(start, params, line)->Ok_0;
    lemma_longer_len(start, c1);
    let h2 = lemma_block_rise(c1, body, held, h1, false);
    lemma_block_sound(c1, body, held);
    let c2 = lower_block(c1, body)->Ok_0;
    lemma_longer_len(c1, c2);
    lemma_longer_trans(start, c1, c2);
    lemma_rises_trans(start, c1, c2, hs, h1, h2, held, -(params.len() as int), 0, false);
    let taken = -(params.len() as int);
    lemma_rise_plain(start, c2, hs, h2, held, OpCode::ReturnNone, line, taken, false);
    let d = c2.emit_op(OpCode::ReturnNone, line);
    crate::steps::lemma_emit_plain(c2, held, OpCode::ReturnNone, line);
    lemma_longer_of_grows(c2, d);
    lemma_longer_trans(start, c2, d);
    lemma_whole(
        start,
        d,
        hs,
        raised(h2, OpCode::ReturnNone, 0, 0),
        -(params.len() as int),
        false,
    );
    lemma_define_even(c2.functions, name, d.current);
}

/// The functions of a program are compiled into even chunks.
pub proof fn lemma_functions_even(c: CompilerModel, stmts: Seq<Stmt>)
    requires
        c.loops.len() == 0,
        table_sound(c.functions),
        table_even(c.functions),
        lower_functions(c, stmts) is Ok,
    ensures
        table_even(lower_functions(c, stmts)->Ok_0.functions),
    decreases stmts.len(),
{
    if stmts.len() > 0 {
        lemma_functions_even(c, stmts.drop_last());
        lemma_functions_sound(c, stmts.drop_last());
        let c1 = lower_functions(c, stmts.drop_last())->Ok_0;
        match stmts.last() {
            Stmt::Function { name, params, body, line } => {
                assert(params@.len() <= usize::MAX) by {
                    assert(params@.len() == params.len());
                }
                lemma_function_even(c1, name@, params@, body@, line);
            },
            _ => {},
        }
    }
}

/// In every function of a compiled program each instruction finds the
/// stack at one height,
/// by whatever way it is reached: every statement leaves the stack as it
/// found it, and the function returns with nothing of its own on the
/// stack but its result.
pub proof fn lemma_functions_level(program: Seq<Stmt>)
    requires
        lower_program(program) is Ok,
    ensures
        table_even(lower_program(program)->Ok_0.1),
{
    let c0 = initial();
    lemma_functions_even(c0, program);
    lemma_functions_sound(c0, program);
    let c1 = lower_functions(c0, program)->Ok_0;
    lemma_empty_tidy(c1);
    lemma_block_sound(c1, program, Set::empty());
    lemma_longer_len(c1, lower_block(c1, program)->Ok_0);
}

/// In the main chunk of a compiled program without a `return` outside
/// its functions each instruction finds the stack at one height, by
/// whatever way it is
/// reached: every statement leaves the stack as it found it, and `HALT`
/// finds it empty.
pub proof fn lemma_program_level(program: Seq<Stmt>)
    requires
        lower_program(program) is Ok,
        !leaves_block(program),
    ensures
        chunk_even(lower_program(program)->Ok_0.0, true),
{
    let held = Set::<int>::empty();
    let c0 = initial();
    lemma_functions_sound(c0, program);
    let c1 = lower_functions(c0, program)->Ok_0;
    let hs = seq![0int];
    lemma_empty_tidy(c1);
    assert(even(c1, hs, held, true)) by {
        reveal(levels);
    }
    let h2 = lemma_block_rise(c1, program, held, hs, true);
    lemma_block_sound(c1, program, held);
    let c2 = lower_block(c1, program)->Ok_0;
    lemma_longer_len(c1, c2);
    lemma_rise_plain(c1, c2, hs, h2, held, OpCode::Halt, 0, 0, true);
    let d = c2.emit_op(OpCode::Halt, 0);
    crate::steps::lemma_emit_plain(c2, held, OpCode::Halt, 0);
    lemma_longer_of_grows(c2, d);
    lemma_longer_trans(c1, c2, d);
    lemma_whole(c1, d, hs, raised(h2, OpCode::Halt, 0, 0), 0, true);
}

/// The chunks of a compiled program without a `return` outside its
/// functions can run.
pub proof fn lemma_program_fit(program: Seq<Stmt>)
    requires
        lower_program(program) is Ok,
        !leaves_block(program),
    ensures
        fit(lower_program(program)->Ok_0.0, true),
        table_fit(lower_program(program)->Ok_0.1),
{
    lemma_program_sound(program);
    lemma_functions_level(program);
    lemma_program_level(program);
    let table = lower_program(program)->Ok_0.1;
    assert forall|i: int| 0 <= i < table.len() implies fit((#[trigger] table[i]).1, false) by {
        assert(chunk_sound(table[i].1));
        assert(chunk_even(table[i].1, false));
    }
}

/// A compiled program without a `return` outside its functions leaves
/// nothing on the stack when it has run to its end in a machine whose
/// functions can run; a machine without functions is one.
pub proof fn lemma_ends_empty(program: Seq<Stmt>, m: VmModel, budget: nat)
    requires
        lower_program(program) is Ok,
        !leaves_block(program),
        table_fit(m.functions),
        run_model(
            loaded(m, lower_program(program)->Ok_0.0, lower_program(program)->Ok_0.1),
            budget,
        ) is Ok,
        run_model(
            loaded(m, lower_program(program)->Ok_0.0, lower_program(program)->Ok_0.1),
            budget,
        )->Ok_0.1 is Halted,
    ensures
        run_model(
            loaded(m, lower_program(program)->Ok_0.0, lower_program(program)->Ok_0.1),
            budget,
        )->Ok_0.0.stack.len() == 0,
{
    let main_chunk = lower_program(program)->Ok_0.0;
    let table = lower_program(program)->Ok_0.1;
    lemma_program_fit(program);
    lemma_loaded_balanced(m, main_chunk, table);
    lemma_run_balanced(loaded(m, main_chunk, table), budget);
}

} // verus!

//! From source text to a running program.

use vstd::prelude::*;
use vstd::string::*;
use crate::ast::{Stmt, StmtModel, stmt_views};
use crate::balance::balanced;
use crate::builtins::{Request, RequestModel};
use crate::chunk::{Chunk, ChunkModel};
use crate::dict::{compare_keys, key_lt};
use crate::disasm::listing;
use crate::compiler::{Compiler, FunctionTable};
use crate::error::{ErrorModel, KindModel, WhispemError, WhispemResult, error_at_line};
use crate::grammar::parse_program;
use crate::lexer::Lexer;
use crate::lowering::{Failure, Fault, TableModel, lower_program};
use crate::scan::tokens_of;
use crate::machine::{
    ReplyModel, Signal, VmModel, deliver_model, reached, run_model, spared, step_model,
};
use crate::parser::Parser;
use crate::text::{chars_of, push_char, string_of};
use crate::vm::{Effect, Reply, Vm};

verus! {

/// The text without one carriage return at its end.
pub open spec fn strip_one_cr(s: Seq<char>) -> Seq<char> {
    if s.len() > 0 && s.last() == '\r' {
        s.drop_last()
    } else {
        s
    }
}

/// The lines of `s`, where `current` holds the part of the line that has
/// been read already.
pub open spec fn split_lines(s: Seq<char>, current: Seq<char>) -> Seq<Seq<char>>
    decreases s.len(),
{
    if s.len() == 0 {
        if current.len() == 0 {
            Seq::empty()
        } else {
            seq![current]
        }
    } else if s[0] == '\n' {
        seq![strip_one_cr(current)] + split_lines(s.skip(1), Seq::empty())
    } else {
        split_lines(s.skip(1), current.push(s[0]))
    }
}

/// The lines of a text: each ends before a line feed, without the
/// carriage return that may stand before it; what follows the last line
/// feed is a line if it is not empty.
pub open spec fn lines_of(s: Seq<char>) -> Seq<Seq<char>> {
    split_lines(s, Seq::empty())
}

/// The texts of a sequence of strings.
pub open spec fn texts(lines: Seq<String>) -> Seq<Seq<char>> {
    Seq::new(lines.len(), |i: int| lines[i]@)
}

/// Appends the lines of `text` to `out`.
pub fn push_lines(out: &mut Vec<String>, text: &str)
    ensures
        texts(final(out)@) == texts(old(out)@) + lines_of(text@),
{
    let chars = chars_of(text);
    let mut current: Vec<char> = Vec::new();
    let mut i: usize = 0;
    proof {
        assert(chars@.skip(0) =~= chars@);
        assert(texts(out@) + lines_of(text@) =~= texts(old(out)@) + lines_of(text@));
    }
    while i < chars.len()
        invariant
            i <= chars.len(),
            chars@ == text@,
            texts(old(out)@) + lines_of(text@) == texts(out@) + split_lines(
                chars@.skip(i as int),
                current@,
            ),
        decreases chars.len() - i,
    {
        let c = chars[i];
        proof {
            assert(chars@.skip(i as int)[0] == c);
            assert(chars@.skip(i as int).skip(1) =~= chars@.skip(i + 1));
        }
        if c == '\n' {
            let ghost before = texts(out@);
            let ghost whole = current@;
            if current.len() > 0 && current[current.len() - 1] == '\r' {
                current.pop();
            }
            let line = string_of(&current);
            out.push(line);
            current = Vec::new();
            proof {
                assert(texts(out@) =~= before.push(strip_one_cr(whole)));
                assert(before + (seq![strip_one_cr(whole)] + split_lines(
                    chars@.skip(i + 1),
                    Seq::empty(),
                )) =~= before.push(strip_one_cr(whole)) + split_lines(
                    chars@.skip(i + 1),
                    Seq::empty(),
                ));
            }
        } else {
            current.push(c);
        }
        i += 1;
    }
    if current.len() > 0 {
        let ghost before = texts(out@);
        let line = string_of(&current);
        out.push(line);
        proof {
            assert(texts(out@) =~= before + seq![current@]);
        }
    } else {
        proof {
            assert(texts(out@) + Seq::<Seq<char>>::empty() =~= texts(out@));
        }
    }
}

/// Why a file cannot be read or written while output is captured.
pub open spec fn unavailable() -> Seq<char> {
    "files are not available here"@
}

/// The answer that a request gets while output is captured: the input is
/// at its end, and no file can be read or written.
pub open spec fn canned_reply(req: RequestModel) -> ReplyModel {
    match req {
        RequestModel::Input(_) => ReplyModel::Line(Seq::empty()),
        RequestModel::ReadFile(_) => ReplyModel::Failed(unavailable()),
        RequestModel::WriteFile(_, _) => ReplyModel::Failed(unavailable()),
    }
}

/// How a captured run ended.
pub enum Ending {
    /// The program ran to its end.
    Finished,
    /// The step budget was used up before the program ended.
    OutOfBudget,
    /// An error stopped the program.
    Failed(ErrorModel),
}

/// A run of at most `budget` steps with the output captured: the lines
/// printed, after those in `out`, and how the run ended.
pub open spec fn capture_model(m: VmModel, budget: nat, out: Seq<Seq<char>>) -> (
    Seq<Seq<char>>,
    Ending,
)
    decreases budget,
{
    if budget == 0 {
        (out, Ending::OutOfBudget)
    } else {
        match step_model(m) {
            Err(e) => (out, Ending::Failed(e)),
            Ok((next, Signal::Continue)) => capture_model(next, (budget - 1) as nat, out),
            Ok((next, Signal::Halted)) => (out, Ending::Finished),
            Ok((next, Signal::Print(text))) => capture_model(
                next,
                (budget - 1) as nat,
                out + lines_of(text.push('\n')),
            ),
            Ok((next, Signal::Ask(req))) => match deliver_model(next, canned_reply(req)) {
                Ok(after) => capture_model(after, (budget - 1) as nat, out),
                Err(e) => (out, Ending::Failed(e)),
            },
        }
    }
}

/// How a captured run ended.
#[derive(Debug)]
pub enum Outcome {
    /// The program ran to its end.
    Finished,
    /// The step budget was used up before the program ended.
    OutOfBudget,
    /// An error stopped the program.
    Failed(WhispemError),
}

impl View for Outcome {
    type V = Ending;

    open spec fn view(&self) -> Ending {
        match self {
            Outcome::Finished => Ending::Finished,
            Outcome::OutOfBudget => Ending::OutOfBudget,
            Outcome::Failed(e) => Ending::Failed(e@),
        }
    }
}

/// Runs the loaded program for at most `budget` steps and captures what
/// it prints, line by line.  A request for input is answered with the end
/// of the input; one for a file fails.  A machine in balance has nothing
/// on its stack when the program has run to its end.
pub fn capture(vm: &mut Vm, budget: u64) -> (r: (Vec<String>, Outcome))
    ensures
        (texts(r.0@), r.1@) == capture_model(old(vm)@, budget as nat, Seq::empty()),
        balanced(old(vm)@) && r.1 is Finished ==> final(vm)@.stack.len() == 0,
{
    let mut out: Vec<String> = Vec::new();
    let mut left: u64 = budget;
    proof {
        assert(texts(out@) =~= Seq::<Seq<char>>::empty());
    }
    while left > 0
        invariant
            capture_model(old(vm)@, budget as nat, Seq::empty()) == capture_model(
                vm@,
                left as nat,
                texts(out@),
            ),
            balanced(old(vm)@) ==> balanced(vm@),
        decreases left,
    {
        match vm.step() {
            Err(e) => {
                return (out, Outcome::Failed(e));
            },
            Ok(Effect::Continue) => {},
            Ok(Effect::Halted) => {
                return (out, Outcome::Finished);
            },
            Ok(Effect::Print(text)) => {
                let mut line = text;
                push_char(&mut line, '\n');
                push_lines(&mut out, line.as_str());
            },
            Ok(Effect::Ask(req)) => {
                let reply = match req {
                    Request::Input(_) => Reply::Line(String::new()),
                    Request::ReadFile(_) => Reply::Failed(
                        String::from_str("files are not available here"),
                    ),
                    Request::WriteFile(_, _) => Reply::Failed(
                        String::from_str("files are not available here"),
                    ),
                };
                match vm.deliver(reply) {
                    Ok(()) => {},
                    Err(e) => {
                        return (out, Outcome::Failed(e));
                    },
                }
            },
        }
        left -= 1;
    }
    (out, Outcome::OutOfBudget)
}

/// The statement tree of a source text, or the error of the lexer or
/// the parser.
pub open spec fn front(source: Seq<char>) -> Result<Seq<StmtModel>, ErrorModel> {
    match tokens_of(source) {
        Ok(tokens) => parse_program(tokens),
        Err(e) => Err(e),
    }
}

/// The error that reports a failure of the compiler.
pub open spec fn failure_error(f: Failure) -> ErrorModel {
    error_at_line(
        match f.kind {
            Fault::TooManyConstants => KindModel::TooManyConstants,
            Fault::CodeTooLong => KindModel::CodeTooLong,
            Fault::BreakOutsideLoop => KindModel::BreakOutsideLoop,
            Fault::ContinueOutsideLoop => KindModel::ContinueOutsideLoop,
        },
        f.line,
    )
}

/// Whether `r` is what compiling the source text gives: the error of the
/// lexer or the parser, or else what the compiler makes of a program
/// whose model is the tree of the text.
pub open spec fn compiles_to(source: Seq<char>, r: Result<(ChunkModel, TableModel), ErrorModel>)
    -> bool {
    match front(source) {
        Err(e) => r == Err::<(ChunkModel, TableModel), ErrorModel>(e),
        Ok(tree) => exists|program: Seq<Stmt>|
            #[trigger] stmt_views(program) == tree && (match lower_program(program) {
                Ok(out) => r == Ok::<(ChunkModel, TableModel), ErrorModel>(out),
                Err(f) => r == Err::<(ChunkModel, TableModel), ErrorModel>(failure_error(f)),
            }),
    }
}

/// Compiles source text: tokens, statement tree, bytecode.  Every chunk
/// that comes out is well formed and of at most 65535 bytes; its jumps
/// lead to instructions, and every instruction of a function finds the
/// stack at one height.
pub fn compile_source(source: &str) -> (r: WhispemResult<(Chunk, FunctionTable)>)
    ensures
        compiles_to(
            source@,
            match r {
                Ok(out) => Ok((out.0@, out.1@)),
                Err(e) => Err(e@),
            },
        ),
        r matches Ok(out) ==> out.0@.wf() && crate::lowering::table_wf(out.1@)
            && crate::sound::chunk_sound(out.0@) && crate::sound::table_sound(out.1@)
            && crate::level::table_even(out.1@),
{
    let mut lexer = Lexer::new(source);
    let tokens = lexer.tokenize()?;
    let mut parser = Parser::new(tokens);
    let program = parser.parse_program()?;
    let ghost tree = program@;
    assert(front(source@) == Ok::<Seq<StmtModel>, ErrorModel>(stmt_views(tree)));
    let compiler = Compiler::new();
    match compiler.compile(program) {
        Ok(out) => Ok(out),
        Err(e) => {
            assert(e@ == failure_error(lower_program(tree)->Err_0));
            Err(e)
        },
    }
}

/// The largest number of steps that [`run_capturing`] lets a program take.
pub const STEP_LIMIT: u64 = 0xFFFF_FFFF_FFFF_FFFF;

/// What is said when a program has not ended within the step limit.
pub open spec fn limit_text() -> Seq<char> {
    "Error: the step limit was reached"@
}

/// What a captured run of a compiled program gives: the lines printed,
/// or the text of the error.
pub open spec fn captured(main_chunk: ChunkModel, table: TableModel) -> Result<
    Seq<Seq<char>>,
    Seq<char>,
> {
    let run = capture_model(
        crate::machine::loaded(crate::machine::fresh(), main_chunk, table),
        STEP_LIMIT as nat,
        Seq::empty(),
    );
    match run.1 {
        Ending::Finished => Ok(run.0),
        Ending::OutOfBudget => Err(limit_text()),
        Ending::Failed(e) => Err(e.text()),
    }
}

/// Whether `r` is what running the source text with its output captured
/// gives: the text of the error that compiling gives, or else what the
/// captured run of the compiled program gives.
pub open spec fn runs_as(source: Seq<char>, r: Result<Seq<Seq<char>>, Seq<char>>) -> bool {
    exists|c: Result<(ChunkModel, TableModel), ErrorModel>|
        #[trigger] compiles_to(source, c) && (match c {
            Err(e) => r == Err::<Seq<Seq<char>>, Seq<char>>(e.text()),
            Ok((main_chunk, table)) => r == captured(main_chunk, table),
        })
}

/// Compiles and runs source text, and returns the lines that it prints.
/// An error of any stage comes back as its text.  A request for input is
/// answered with the end of the input; one for a file fails.
pub fn run_capturing(source: &str) -> (r: Result<Vec<String>, String>)
    ensures
        runs_as(
            source@,
            match r {
                Ok(lines) => Ok(texts(lines@)),
                Err(message) => Err(message@),
            },
        ),
{
    let (main_chunk, functions) = match compile_source(source) {
        Ok(out) => out,
        Err(e) => {
            let message = e.to_string();
            assert(compiles_to(source@, Err::<(ChunkModel, TableModel), ErrorModel>(e@)));
            return Err(message);
        },
    };
    let ghost compiled = Ok::<(ChunkModel, TableModel), ErrorModel>((main_chunk@, functions@));
    assert(compiles_to(source@, compiled));
    let mut vm = Vm::new();
    vm.define(functions);
    vm.load(main_chunk);
    let (lines, outcome) = capture(&mut vm, STEP_LIMIT);
    match outcome {
        Outcome::Finished => Ok(lines),
        Outcome::OutOfBudget => Err(String::from_str("Error: the step limit was reached")),
        Outcome::Failed(e) => Err(e.to_string()),
    }
}

/// Whether `r` and the machine `after` are what compiling the source
/// text and running it in the machine `before` gives: on an error of the
/// lexer, the parser or the compiler its text, with the machine as it was;
/// or else what the run of the compiled program for at most `budget`
/// steps gives, where an error of the run leaves the state that the steps
/// before it have reached, as far as an error spares it.
pub open spec fn sourced(
    source: Seq<char>,
    before: VmModel,
    budget: nat,
    r: Result<Signal, Seq<char>>,
    after: VmModel,
) -> bool {
    exists|c: Result<(ChunkModel, TableModel), ErrorModel>|
        #[trigger] compiles_to(source, c) && (match c {
            Err(e) => r == Err::<Signal, Seq<char>>(e.text()) && after == before,
            Ok((main_chunk, table)) => match run_model(
                crate::machine::loaded(before, main_chunk, table),
                budget,
            ) {
                Ok((m, signal)) => r == Ok::<Signal, Seq<char>>(signal) && after == m,
                Err(e) => r == Err::<Signal, Seq<char>>(e.text()) && spared(
                    reached(crate::machine::loaded(before, main_chunk, table), budget),
                    after,
                ),
            },
        })
}

/// Compiles source text and runs it in a machine that keeps its
/// variables and functions from one call to the next.  The run goes on as
/// [`Vm::resume`] says; where it stops for the driver, the driver goes on
/// with the machine.  An error of any stage comes back as its text.
pub fn run_source(source: &str, vm: &mut Vm, budget: u64) -> (r: Result<Effect, String>)
    ensures
        sourced(
            source@,
            old(vm)@,
            budget as nat,
            match r {
                Ok(effect) => Ok(effect@),
                Err(message) => Err(message@),
            },
            final(vm)@,
        ),
{
    let (main_chunk, functions) = match compile_source(source) {
        Ok(out) => out,
        Err(e) => {
            let message = e.to_string();
            assert(compiles_to(source@, Err::<(ChunkModel, TableModel), ErrorModel>(e@)));
            return Err(message);
        },
    };
    let ghost compiled = Ok::<(ChunkModel, TableModel), ErrorModel>((main_chunk@, functions@));
    assert(compiles_to(source@, compiled));
    vm.define(functions);
    match vm.run(main_chunk, budget) {
        Ok(effect) => Ok(effect),
        Err(e) => Err(e.to_string()),
    }
}

/// Whether a line of input opens a block that goes on in the next line:
/// whether it ends with an opening brace.
pub fn needs_more_input(line: &str) -> (b: bool)
    ensures
        b == (line@.len() > 0 && line@.last() == '{'),
{
    let chars = chars_of(line);
    chars.len() > 0 && chars[chars.len() - 1] == '{'
}

/// The positions `order`, which stand in the order of the names at them,
/// with the position `k` put before the first whose name is greater
/// than the name at `k`.
pub open spec fn placed(order: Seq<usize>, table: TableModel, k: usize) -> Seq<usize>
    decreases order.len(),
{
    if order.len() == 0 {
        seq![k]
    } else if key_lt(table[k as int].0, table[order[0] as int].0) {
        seq![k] + order
    } else {
        seq![order[0]] + placed(order.skip(1), table, k)
    }
}

/// The first `n` positions of the table in the order of the names at
/// them; of two equal names the earlier comes first.
pub open spec fn by_name(table: TableModel, n: nat) -> Seq<usize>
    decreases n,
{
    if n == 0 {
        Seq::empty()
    } else {
        placed(by_name(table, (n - 1) as nat), table, (n - 1) as usize)
    }
}

/// The listings of the chunks at the given positions, each after an
/// empty line.
pub open spec fn listings(table: TableModel, order: Seq<usize>) -> Seq<char>
    decreases order.len(),
{
    if order.len() == 0 {
        Seq::empty()
    } else {
        listings(table, order.drop_last()) + seq!['\n'] + listing(table[order.last() as int].1)
    }
}

/// The listing of a program: that of the main chunk, and after it those
/// of the functions in the order of their names.
pub open spec fn dump_text(main_chunk: ChunkModel, table: TableModel) -> Seq<char> {
    listing(main_chunk) + listings(table, by_name(table, table.len()))
}

/// The positions of the table in the order of the names at them.
fn name_order(table: &FunctionTable) -> (order: Vec<usize>)
    ensures
        order@ == by_name(table@, table@.len()),
        forall|j: int| 0 <= j < order@.len() ==> (#[trigger] order@[j]) < table@.len(),
{
    let mut order: Vec<usize> = Vec::new();
    let mut k: usize = 0;
    while k < table.entries.len()
        invariant
            k <= table.entries.len(),
            table@.len() == table.entries.len(),
            order@ == by_name(table@, k as nat),
            forall|j: int| 0 <= j < order@.len() ==> (#[trigger] order@[j]) < k,
        decreases table.entries.len() - k,
    {
        let ghost before = order@;
        let mut j: usize = 0;
        proof {
            assert(before.skip(0) =~= before);
            assert(before.take(0) + placed(before, table@, k) =~= placed(before, table@, k));
        }
        while j < order.len() && compare_keys(
            table.entries[k].0.as_str(),
            table.entries[order[j]].0.as_str(),
        ) >= 0
            invariant
                j <= order.len(),
                k < table.entries.len(),
                table@.len() == table.entries.len(),
                order@ == before,
                forall|i: int| 0 <= i < before.len() ==> (#[trigger] before[i]) < k,
                placed(before, table@, k) == before.take(j as int) + placed(
                    before.skip(j as int),
                    table@,
                    k,
                ),
            decreases order.len() - j,
        {
            proof {
                let tail = before.skip(j as int);
                assert(tail[0] == before[j as int]);
                assert(tail.skip(1) =~= before.skip(j + 1));
                assert(table@[k as int].0 == table.entries@[k as int].0@);
                assert(table@[before[j as int] as int].0 == table.entries@[before[j as int] as int].0@);
                assert(before.take(j + 1) + placed(before.skip(j + 1), table@, k) =~= before.take(
                    j as int,
                ) + (seq![tail[0]] + placed(tail.skip(1), table@, k)));
            }
            j += 1;
        }
        proof {
            let tail = before.skip(j as int);
            assert(table@[k as int].0 == table.entries@[k as int].0@);
            if j < before.len() {
                assert(tail[0] == before[j as int]);
                assert(table@[before[j as int] as int].0 == table.entries@[before[j as int] as int].0@);
                assert(placed(tail, table@, k) == seq![k] + tail);
            } else {
                assert(tail =~= Seq::<usize>::empty());
            }
        }
        order.insert(j, k);
        proof {
            assert(order@ =~= before.take(j as int) + (seq![k] + before.skip(j as int)));
        }
        k += 1;
    }
    order
}

/// The listing of a program: that of the main chunk, and after it, each
/// after an empty line, those of the functions in the order of their
/// names.
pub fn dump(main_chunk: &Chunk, table: &FunctionTable) -> (s: String)
    ensures
        s@ == dump_text(main_chunk@, table@),
{
    let order = name_order(table);
    let mut s = main_chunk.disassemble();
    let mut i: usize = 0;
    proof {
        assert(order@.take(0) =~= Seq::<usize>::empty());
        assert(s@ + Seq::<char>::empty() =~= s@);
    }
    while i < order.len()
        invariant
            i <= order.len(),
            table@.len() == table.entries.len(),
            forall|j: int| 0 <= j < order@.len() ==> (#[trigger] order@[j]) < table@.len(),
            s@ == listing(main_chunk@) + listings(table@, order@.take(i as int)),
        decreases order.len() - i,
    {
        let text = table.entries[order[i]].1.disassemble();
        proof {
            let next = order@.take(i + 1);
            assert(next.drop_last() =~= order@.take(i as int));
            assert(next.last() == order@[i as int]);
            assert(table@[order@[i as int] as int].1 == table.entries@[order@[i as int] as int].1@);
        }
        push_char(&mut s, '\n');
        s.append(text.as_str());
        proof {
            assert(s@ =~= listing(main_chunk@) + listings(table@, order@.take(i + 1)));
        }
        i += 1;
    }
    proof {
        assert(order@.take(order@.len() as int) =~= order@);
    }
    s
}

} // verus!

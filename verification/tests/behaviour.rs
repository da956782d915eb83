use whispem::ast::{BinaryOp, Expr, LogicalOp, Stmt};
use whispem::builtins::Request;
use whispem::chunk::Chunk;
use whispem::compiler::{Compiler, FunctionTable};
use whispem::error::{ErrorKind, Span, WhispemError};
use whispem::lexer::Lexer;
use whispem::number::Number;
use whispem::opcode::OpCode;
use whispem::parser::Parser;
use whispem::pipeline::{
    capture, compile_source, dump, needs_more_input, run_capturing, run_source, Outcome,
};
use whispem::prompt::{entry_kind, line_kind, trim_line, LineKind};
use whispem::value::Value;
use whispem::vm::{Effect, Reply, Vm};

fn ok(src: &str) -> Vec<String> {
    run_capturing(src).unwrap_or_else(|e| panic!("Whispem error: {}", e))
}

fn err_msg(src: &str) -> String {
    run_capturing(src).expect_err("Expected an error but succeeded")
}

fn compiled(src: &str) -> (Chunk, FunctionTable) {
    compile_source(src).unwrap_or_else(|e| panic!("compile error: {}", e.to_string()))
}

fn refusal(src: &str) -> WhispemError {
    match compile_source(src) {
        Ok(_) => panic!("expected a compile error"),
        Err(e) => e,
    }
}

/// The offsets at which instructions start, and the targets of all jumps.
fn layout(chunk: &Chunk) -> (Vec<usize>, Vec<usize>) {
    let mut starts = Vec::new();
    let mut targets = Vec::new();
    let mut at = 0;
    while at < chunk.code.len() {
        starts.push(at);
        let op = OpCode::from_byte(chunk.code[at]).expect("an instruction");
        let size = op.operand_size();
        assert!(at + size < chunk.code.len());
        if matches!(
            op,
            OpCode::Jump
                | OpCode::JumpIfFalse
                | OpCode::JumpIfTrue
                | OpCode::PeekJumpIfFalse
                | OpCode::PeekJumpIfTrue
        ) {
            targets.push((chunk.code[at + 1] as usize) * 256 + chunk.code[at + 2] as usize);
        }
        at += 1 + size;
    }
    assert_eq!(at, chunk.code.len());
    (starts, targets)
}

const SAMPLE: &str = "fn f(a, b) {\nlet t = 0\nfor x in a {\nif x > b and x < 100 or x == 7 { continue }\nwhile t < 3 { let t = t + 1\nif t == 2 { break } }\n}\nreturn t\n}\nlet d = {\"k\": [1, 2], \"j\": \"k\"}\nif f([1, 2, 3], 2) { print \"k\" } else { print d[\"j\"] }\nfor i in range(0, 3) { if i == 1 { break } }";

#[test]
fn every_byte_has_a_line() {
    let (main, functions) = compiled(SAMPLE);
    assert_eq!(main.code.len(), main.lines.len());
    assert!(main.code.len() > 20);
    for (_, chunk) in &functions.entries {
        assert_eq!(chunk.code.len(), chunk.lines.len());
    }
}

#[test]
fn jumps_land_on_instructions() {
    let (main, functions) = compiled(SAMPLE);
    let mut chunks: Vec<&Chunk> = vec![&main];
    for (_, chunk) in &functions.entries {
        chunks.push(chunk);
    }
    let mut jumps = 0;
    for chunk in chunks {
        let (starts, targets) = layout(chunk);
        for t in targets {
            assert!(starts.contains(&t), "target {} in {}", t, chunk.name);
            jumps += 1;
        }
    }
    assert!(jumps >= 10);
}

#[test]
fn string_constants_are_not_repeated() {
    let (main, functions) = compiled(SAMPLE);
    let mut chunks: Vec<&Chunk> = vec![&main];
    for (_, chunk) in &functions.entries {
        chunks.push(chunk);
    }
    for chunk in chunks {
        let mut seen: Vec<String> = Vec::new();
        for c in &chunk.constants {
            if let Value::Str(s) = c {
                assert!(!seen.contains(s), "{} twice in {}", s, chunk.name);
                seen.push(s.clone());
            }
        }
    }
    let (main, _) = compiled("let k = \"k\"\nprint k + \"k\"\nprint 1 + 1");
    let strings = main.constants.iter().filter(|c| matches!(c, Value::Str(_))).count();
    let numbers = main.constants.iter().filter(|c| matches!(c, Value::Number(_))).count();
    assert_eq!(strings, 1);
    assert_eq!(numbers, 2);
}

#[test]
fn the_stack_is_empty_at_the_end() {
    let (main, functions) = compiled(SAMPLE);
    let mut vm = Vm::new();
    vm.define(functions);
    vm.load(main);
    let (lines, outcome) = capture(&mut vm, 1_000_000);
    assert!(matches!(outcome, Outcome::Finished));
    assert_eq!(lines, vec!["k"]);
    assert_eq!(vm.stack_depth(), 0);
    assert_eq!(vm.frame_count(), 0);
}

#[test]
fn the_stack_is_empty_after_calls_and_loops() {
    let src = "fn fact(n) { if n <= 1 { return 1 } return n * fact(n - 1) }\nfn none() { }\nlet a = [fact(3), none(), {\"k\": fact(2)}]\nfor x in a { while true { if x { break } else { break } } }\nfact(4)\nprint length(a) + fact(5)";
    let (main, functions) = compiled(src);
    let mut vm = Vm::new();
    vm.define(functions);
    vm.load(main);
    let (lines, outcome) = capture(&mut vm, 1_000_000);
    assert!(matches!(outcome, Outcome::Finished));
    assert_eq!(lines, vec!["123"]);
    assert_eq!(vm.stack_depth(), 0);
    assert_eq!(vm.frame_count(), 0);
}

#[test]
fn a_return_outside_functions_ends_the_program_with_its_value() {
    let (main, functions) = compiled("print 1\nreturn 5\nprint 2");
    let mut vm = Vm::new();
    vm.define(functions);
    vm.load(main);
    let (lines, outcome) = capture(&mut vm, 1_000);
    assert!(matches!(outcome, Outcome::Finished));
    assert_eq!(lines, vec!["1"]);
    assert_eq!(vm.stack_depth(), 1);
    assert_eq!(vm.frame_count(), 0);
}

#[test]
fn a_discarded_expression_prints_nothing() {
    assert_eq!(ok("fn f(a) { return length(a) + 1 }\nlet a = [1, 2]\nf(a)\nprint 1"), vec!["1"]);
    let (main, _) = compiled("fn f() { return 1 }\nf()");
    assert_eq!(main.code[main.code.len() - 2], 0x71);
}

#[test]
fn discarded_values_of_built_in_functions_leave_no_trace() {
    let one = || Expr::Number(Number::from_u64(1));
    let call = |name: &str, arguments: Vec<Expr>| Expr::Call {
        name: name.to_string(),
        arguments,
        line: 1,
    };
    let program = vec![
        Stmt::Expression { expr: call("length", vec![Expr::Array(vec![one(), one()])]), line: 1 },
        Stmt::Expression {
            expr: Expr::Binary {
                left: Box::new(one()),
                op: BinaryOp::Add,
                right: Box::new(call("pop", vec![call("push", vec![Expr::Array(vec![]), one()])])),
            },
            line: 2,
        },
        Stmt::Expression {
            expr: Expr::Logical {
                left: Box::new(Expr::Bool(false)),
                op: LogicalOp::And,
                right: Box::new(call("keys", vec![Expr::Dict(vec![])])),
            },
            line: 3,
        },
        Stmt::Print { value: one(), line: 4 },
    ];
    let (main, functions) = Compiler::new().compile(program).unwrap_or_else(|_| panic!());
    let mut vm = Vm::new();
    vm.define(functions);
    vm.load(main);
    let mut told = Vec::new();
    loop {
        match vm.step().unwrap_or_else(|_| panic!()) {
            Effect::Continue => {},
            Effect::Halted => break,
            Effect::Print(text) => told.push(text),
            Effect::Ask(_) => panic!("nothing is asked for"),
        }
    }
    assert_eq!(told, vec!["1"]);
    assert_eq!(vm.stack_depth(), 0);
}

#[test]
fn push_adds_one_to_the_length() {
    assert_eq!(ok("let a = [1, \"x\", [3]]\nprint length(push(a, 9)) == length(a) + 1"), vec!["true"]);
    assert_eq!(ok("print length(push([], 1))"), vec!["1"]);
    assert_eq!(ok("let a = [1]\nlet b = push(a, 2)\nprint a\nprint b"), vec!["[1]", "[1, 2]"]);
}

#[test]
fn reversing_twice_gives_the_array() {
    assert_eq!(ok("print reverse(reverse([1, \"two\", [3, 4]]))"), vec!["[1, two, [3, 4]]"]);
    assert_eq!(ok("print reverse([])"), vec!["[]"]);
}

#[test]
fn the_whole_slice_is_the_array() {
    assert_eq!(ok("let a = [5, 6, 7]\nprint slice(a, 0, length(a))"), vec!["[5, 6, 7]"]);
    assert_eq!(ok("print slice([1, 2, 3], 1, 1)"), vec!["[]"]);
    assert_eq!(
        err_msg("print slice([1, 2, 3], 2.9, 3.5)"),
        "[line 1, col 0] Error: Array index must be a number"
    );
}

#[test]
fn has_key_agrees_with_indexing() {
    assert_eq!(ok("let d = {\"a\": 1, 2: \"two\"}\nprint has_key(d, \"a\")\nprint d[\"a\"]"), vec!["true", "1"]);
    assert_eq!(ok("let d = {2: \"two\"}\nprint has_key(d, 2)\nprint d[2]\nprint d[\"2\"]"), vec!["true", "two", "two"]);
    assert_eq!(ok("print has_key({\"a\": 1}, \"b\")"), vec!["false"]);
    let e = err_msg("let d = {\"a\": 1}\nprint d[\"b\"]");
    assert_eq!(e, "[line 2, col 0] Error: Undefined variable: 'dict key \"b\"'");
}

#[test]
fn the_right_side_is_skipped_when_the_left_decides() {
    let said = "fn say(x) { print \"said\"\nreturn x }\n";
    assert_eq!(ok(&format!("{}print false and say(true)", said)), vec!["false"]);
    assert_eq!(ok(&format!("{}print 0 and say(true)", said)), vec!["0"]);
    assert_eq!(ok(&format!("{}print \"\" or say(5)", said)), vec!["said", "5"]);
    assert_eq!(ok(&format!("{}print 3 or say(5)", said)), vec!["3"]);
    assert_eq!(ok(&format!("{}print true and say(\"b\")", said)), vec!["said", "b"]);
}

#[test]
fn division_by_zero() {
    assert_eq!(err_msg("print 1 / 0"), "Error: Division by zero");
    assert_eq!(err_msg("print 1 % 0"), "Error: Division by zero");
    assert_eq!(err_msg("print 0 / (0 - 0)"), "Error: Division by zero");
    assert_eq!(err_msg("let z = 0\nprint 5 / -z"), "Error: Division by zero");
}

#[test]
fn index_out_of_bounds() {
    assert_eq!(
        err_msg("let a = [1, 2, 3]\nprint a[3]"),
        "[line 2, col 0] Error: Array index 3 out of bounds (array length: 3)"
    );
    assert_eq!(
        err_msg("let a = []\na[0] = 1"),
        "[line 2, col 0] Error: Array index 0 out of bounds (array length: 0)"
    );
}

#[test]
fn an_index_is_an_integer_not_below_zero() {
    let refused = "[line 2, col 0] Error: Array index must be a number";
    assert_eq!(err_msg("let a = [10, 20]\nprint a[-1]"), refused);
    assert_eq!(err_msg("let a = [10, 20]\nprint a[1.5]"), refused);
    assert_eq!(err_msg("let a = [10, 20]\nprint a[0 - 0.5]"), refused);
    assert_eq!(err_msg("let a = [10, 20]\nprint a[1 / 3]"), refused);
    assert_eq!(err_msg("let a = [10, 20]\na[-1] = 5"), refused);
    assert_eq!(err_msg("let a = [10, 20]\na[0.5] = 5"), refused);
    assert_eq!(err_msg("let a = [10, 20]\nprint a[\"0\"]"), refused);
    assert_eq!(err_msg("let a = [10, 20]\nprint slice(a, -1, 1)"), refused);
    assert_eq!(err_msg("let a = [10, 20]\nprint slice(a, 0, 1.5)"), refused);
    assert_eq!(
        ok("let a = [10, 20]\nprint a[0 * -1]\nprint a[2 / 2]\na[1.0] = 7\nprint a\nprint slice(a, 0 * -1, 1)"),
        vec!["10", "20", "[10, 7]", "[10]"]
    );
    assert_eq!(
        err_msg("let a = [10, 20]\nlet big = 100000 * 100000 * 100000 * 100000 * 100000\nprint a[big]"),
        format!(
            "[line 3, col 0] Error: Array index {} out of bounds (array length: 2)",
            usize::MAX
        )
    );
}

#[test]
fn code_beyond_the_reach_of_a_jump_is_refused() {
    let mut src = String::new();
    for _ in 0..33_000 {
        src.push_str("print true\n");
    }
    let e = refusal(&src);
    assert!(matches!(e.kind, ErrorKind::CodeTooLong));
    assert_eq!(
        e.to_string(),
        "Error: Too much code in one function (max 65535 bytes). Split it into smaller functions."
    );
    let mut body = String::from("fn f() {\n");
    for _ in 0..33_000 {
        body.push_str("print true\n");
    }
    body.push_str("}\nprint 1");
    assert!(matches!(refusal(&body).kind, ErrorKind::CodeTooLong));
    let mut fits = String::new();
    for _ in 0..32_767 {
        fits.push_str("print true\n");
    }
    let (main, _) = compiled(&fits);
    assert_eq!(main.code.len(), 65_535);
}

#[test]
fn an_error_leaves_variables_and_frames_as_they_were() {
    let (main, functions) = compiled("let x = 1\nlet y = [x, nope(2)]\nlet x = 3");
    let mut vm = Vm::new();
    vm.define(functions);
    let e = match vm.run(main, 1_000) {
        Ok(_) => panic!("expected an error"),
        Err(e) => e,
    };
    assert!(matches!(e.kind, ErrorKind::UndefinedFunction(ref n) if n == "nope"));
    assert_eq!(e.span, Span::new(2, 0));
    assert_eq!(vm.frame_count(), 1);
    assert_eq!(vm.global("x").map(|v| v.format()), Some("1".to_string()));
    assert!(vm.global("y").is_none());
    assert_eq!(vm.stack_depth(), 2);

    let mut vm = Vm::new();
    vm.load(chunk_of(vec![0x01, 0x99]));
    assert!(matches!(vm.step(), Ok(Effect::Continue)));
    assert_eq!(vm.stack_depth(), 1);
    let e = vm.step().expect_err("no instruction");
    assert!(matches!(e.kind, ErrorKind::InvalidOpcode(0x99)));
    assert_eq!(e.span, Span::new(7, 0));
    assert_eq!(vm.stack_depth(), 1);
    assert_eq!(vm.frame_count(), 1);
    assert!(!vm.is_waiting());
}

#[test]
fn no_name_stands_twice_among_the_functions() {
    let (_, functions) = compiled("fn f() { return 1 }\nfn g() { return 2 }\nfn f() { return 3 }\nprint f()");
    assert_eq!(functions.len(), 2);
    assert_eq!(functions.entries[0].0, "f");
    assert_eq!(functions.entries[1].0, "g");
    assert_eq!(ok("fn f() { return 1 }\nfn g() { return 2 }\nfn f() { return 3 }\nprint f()"), vec!["3"]);
}

#[test]
fn pop_of_the_empty_array() {
    assert_eq!(err_msg("print pop([])"), "[line 1, col 0] Error: Cannot pop from an empty array");
}

#[test]
fn slice_errors() {
    assert_eq!(
        err_msg("print slice([1, 2, 3], 2, 1)"),
        "[line 1, col 0] Error: slice() start index 2 cannot be greater than end index 1"
    );
    assert_eq!(
        err_msg("print slice([1, 2, 3], 1, 4)"),
        "[line 1, col 0] Error: slice() end index 4 out of bounds (array length: 3)"
    );
    assert_eq!(
        err_msg("print slice([1, 2, 3], \"a\", 4)"),
        "[line 1, col 0] Error: Array index must be a number"
    );
}

#[test]
fn break_and_continue_need_a_loop() {
    let e = refusal("let x = 1\nif x { break }");
    assert!(matches!(e.kind, ErrorKind::BreakOutsideLoop));
    assert_eq!(e.span, Span::new(2, 0));
    assert_eq!(e.to_string(), "[line 2, col 0] Error: 'break' used outside of a loop");
    let e = refusal("continue");
    assert!(matches!(e.kind, ErrorKind::ContinueOutsideLoop));
    assert_eq!(e.to_string(), "[line 1, col 0] Error: 'continue' used outside of a loop");
    let e = refusal("fn f() { while true { } \n break }");
    assert!(matches!(e.kind, ErrorKind::BreakOutsideLoop));
    assert!(compile_source("while true { if 1 { break } else { continue } }").is_ok());
}

#[test]
fn too_many_constants() {
    let mut src = String::new();
    for i in 0..256 {
        src.push_str(&format!("print {}\n", i));
    }
    assert!(compile_source(&src).is_ok());
    assert!(compile_source(&format!("{}print 3", src)).is_err());
    src.push_str("print \"one more\"");
    let e = refusal(&src);
    assert!(matches!(e.kind, ErrorKind::TooManyConstants));
    assert_eq!(e.span, Span::new(257, 0));

    let mut names = String::new();
    for i in 0..256 {
        names.push_str(&format!("let v{} = true\n", i));
    }
    names.push_str("let v0 = false\nprint v255");
    assert!(compile_source(&names).is_ok());
    let elements = vec!["true"; 256].join(", ");
    let e = refusal(&format!("print [{}]", elements));
    assert!(matches!(e.kind, ErrorKind::TooManyConstants));
    assert!(compile_source(&format!("print [{}]", vec!["true"; 255].join(", "))).is_ok());
}

#[test]
fn errors_of_the_lexer_and_the_parser() {
    assert_eq!(err_msg("let x = 1 @ 2"), "[line 1, col 11] Error: Unexpected character: '@'");
    assert_eq!(err_msg("print \"abc"), "[line 1, col 7] Error: Unterminated string literal");
    assert_eq!(err_msg("print \"abc\\"), "[line 1, col 7] Error: Unterminated string literal");
    assert_eq!(err_msg("let = 3"), "[line 1, col 5] Error: Expected identifier, found '='");
    assert_eq!(err_msg("let x 3"), "[line 1, col 7] Error: Expected '=', found number '3'");
    assert_eq!(err_msg("if true {\nprint 1"), "[line 2, col 8] Error: Unexpected end of file");
    assert_eq!(err_msg("print )"), "[line 1, col 7] Error: Expected expression, found ')'");
    assert_eq!(err_msg("x"), "[line 1, col 2] Error: Expected '(' or '[', found end of file");
    assert_eq!(err_msg("]"), "[line 1, col 1] Error: Expected statement, found ']'");
}

#[test]
fn errors_of_the_machine() {
    assert_eq!(err_msg("print nothing"), "[line 1, col 0] Error: Undefined variable: 'nothing'");
    assert_eq!(err_msg("\n\nnothing(1)"), "[line 3, col 0] Error: Undefined function: 'nothing'");
    assert_eq!(
        err_msg("print 1 - \"a\""),
        "[line 1, col 0] Error: Type error: expected number, found number and string"
    );
    assert_eq!(
        err_msg("print [1] + 1"),
        "[line 1, col 0] Error: Type error: expected number or string, found array and number"
    );
    assert_eq!(
        err_msg("print -\"a\""),
        "[line 1, col 0] Error: Type error: expected number, found string"
    );
    assert_eq!(
        err_msg("print 1 < \"a\""),
        "[line 1, col 0] Error: Type error: expected number or string, found number and string"
    );
    assert_eq!(
        err_msg("print length(1)"),
        "[line 1, col 0] Error: Type error: expected array, string, or dict, found number"
    );
    assert_eq!(
        err_msg("print {true: 1}"),
        "[line 1, col 0] Error: Type error: expected string or number (as dict key), found bool"
    );
    assert_eq!(
        err_msg("print 5[0]"),
        "[line 1, col 0] Error: Type error: expected array or dict, found number"
    );
    assert_eq!(
        err_msg("print length()"),
        "[line 1, col 0] Error: Function 'length' expected 1 argument, got 0"
    );
    assert_eq!(
        err_msg("print push([1])"),
        "[line 1, col 0] Error: Function 'push' expected 2 arguments, got 1"
    );
    assert_eq!(
        err_msg("fn f(a, b) { return a }\nprint f(1)"),
        "[line 2, col 0] Error: Function 'f' expected 2 arguments, got 1"
    );
    assert_eq!(
        err_msg("print read_file(\"nowhere\")"),
        "[line 1, col 0] Error: Failed to read file 'nowhere': files are not available here"
    );
    assert_eq!(
        err_msg("write_file(\"nowhere\", 1)"),
        "[line 1, col 0] Error: Failed to write file 'nowhere': files are not available here"
    );
}

fn chunk_of(code: Vec<u8>) -> Chunk {
    let mut chunk = Chunk::new("<made>");
    for b in code {
        chunk.emit_byte(b, 7);
    }
    chunk
}

fn fails_with(code: Vec<u8>) -> WhispemError {
    let mut vm = Vm::new();
    match vm.run(chunk_of(code), 100) {
        Ok(_) => panic!("expected an error"),
        Err(e) => e,
    }
}

#[test]
fn code_that_no_compiler_wrote() {
    let e = fails_with(vec![0x71]);
    assert!(matches!(e.kind, ErrorKind::StackUnderflow));
    assert_eq!(e.to_string(), "Error: Internal error: stack underflow (compiler bug)");
    let e = fails_with(vec![0x01, 0x20]);
    assert!(matches!(e.kind, ErrorKind::StackUnderflow));
    let e = fails_with(vec![0x99]);
    assert!(matches!(e.kind, ErrorKind::InvalidOpcode(0x99)));
    assert_eq!(e.to_string(), "[line 7, col 0] Error: Internal error: unknown opcode 0x99");
    let e = fails_with(vec![0x01]);
    assert!(matches!(e.kind, ErrorKind::InvalidOpcode(0)));
    let e = fails_with(vec![0x40, 0x00]);
    assert!(matches!(e.kind, ErrorKind::InvalidOpcode(0x40)));
    let e = fails_with(vec![0x00, 0x05]);
    assert!(matches!(e.kind, ErrorKind::InvalidOpcode(0x00)));
    let mut vm = Vm::new();
    assert!(matches!(vm.run(chunk_of(vec![0x40, 0x00, 0x00]), 1000), Ok(Effect::Continue)));
    assert!(matches!(vm.step(), Ok(Effect::Continue)));
    let mut vm = Vm::new();
    assert!(matches!(vm.step(), Ok(Effect::Halted)));
    assert!(matches!(vm.run(chunk_of(vec![0x03, 0x51]), 10), Ok(Effect::Halted)));
}

#[test]
fn jump_if_true_pops_its_test() {
    let mut vm = Vm::new();
    let r = vm.run(chunk_of(vec![0x01, 0x42, 0x00, 0x06, 0x02, 0x70, 0x01, 0x70, 0xFF]), 100);
    match r {
        Ok(Effect::Print(s)) => assert_eq!(s, "true"),
        other => panic!("{:?}", other),
    }
    assert_eq!(vm.stack_depth(), 0);
    assert!(matches!(vm.resume(100), Ok(Effect::Halted)));
}

#[test]
fn requests_and_their_answers() {
    let (main, functions) = compiled("let x = input(\"? \")\nprint x + \"!\"\nprint input()");
    let mut vm = Vm::new();
    vm.define(functions);
    match vm.run(main, 1000) {
        Ok(Effect::Ask(Request::Input(p))) => assert_eq!(p, "? "),
        other => panic!("{:?}", other),
    }
    assert!(vm.is_waiting());
    assert!(matches!(vm.step(), Ok(Effect::Ask(Request::Input(_)))));
    vm.deliver(Reply::Line("abc\r\n".to_string())).unwrap();
    assert!(!vm.is_waiting());
    match vm.resume(1000) {
        Ok(Effect::Print(s)) => assert_eq!(s, "abc!"),
        other => panic!("{:?}", other),
    }
    match vm.resume(1000) {
        Ok(Effect::Ask(Request::Input(p))) => assert_eq!(p, ""),
        other => panic!("{:?}", other),
    }
    vm.deliver(Reply::Line("a\rb\n\n\r\r".to_string())).unwrap();
    match vm.resume(1000) {
        Ok(Effect::Print(s)) => assert_eq!(s, "a\rb\n\n"),
        other => panic!("{:?}", other),
    }
    assert!(matches!(vm.resume(1000), Ok(Effect::Halted)));

    let (main, _) = compiled("let t = read_file(\"a.txt\")\nprint write_file(\"b.txt\", [t, 1.5])");
    let mut vm = Vm::new();
    match vm.run(main, 1000) {
        Ok(Effect::Ask(Request::ReadFile(p))) => assert_eq!(p, "a.txt"),
        other => panic!("{:?}", other),
    }
    vm.deliver(Reply::Contents("text".to_string())).unwrap();
    match vm.resume(1000) {
        Ok(Effect::Ask(Request::WriteFile(p, c))) => {
            assert_eq!(p, "b.txt");
            assert_eq!(c, "[text, 1.5]");
        }
        other => panic!("{:?}", other),
    }
    vm.deliver(Reply::Written).unwrap();
    match vm.resume(1000) {
        Ok(Effect::Print(s)) => assert_eq!(s, ""),
        other => panic!("{:?}", other),
    }

    let (main, _) = compiled("\nwrite_file(\"b.txt\", 1)");
    let mut vm = Vm::new();
    assert!(matches!(vm.run(main, 1000), Ok(Effect::Ask(Request::WriteFile(_, _)))));
    let e = vm.deliver(Reply::Failed("disk full".to_string())).unwrap_err();
    assert_eq!(e.to_string(), "[line 2, col 0] Error: Failed to write file 'b.txt': disk full");
    assert_eq!(
        err_msg("print input(1)"),
        "[line 1, col 0] Error: Type error: expected string, found number"
    );
    assert_eq!(
        err_msg("print input(\"a\", \"b\")"),
        "[line 1, col 0] Error: Function 'input' expected 1 argument, got 2"
    );
}

#[test]
fn a_machine_keeps_its_variables_and_functions() {
    let mut vm = Vm::new();
    assert!(matches!(run_source("let g = 41\nfn inc(n) { return n + 1 }", &mut vm, 1000), Ok(Effect::Halted)));
    match run_source("print inc(g)", &mut vm, 1000) {
        Ok(Effect::Print(s)) => assert_eq!(s, "42"),
        other => panic!("{:?}", other),
    }
    assert!(run_source("print 1 +", &mut vm, 1000).is_err());
    assert_eq!(run_source("print nope", &mut vm, 1000).unwrap_err(), "[line 1, col 0] Error: Undefined variable: 'nope'");
    assert!(matches!(run_source("fn inc(n) { return n + 2 }\nlet g = inc(g)", &mut vm, 1000), Ok(Effect::Halted)));
    assert_eq!(vm.global("g").map(|v| v.format()), Some("43".to_string()));
    assert!(vm.global("n").is_none());
    assert!(matches!(run_source("while true { }", &mut vm, 1000), Ok(Effect::Continue)));
}

#[test]
fn a_function_does_not_change_globals() {
    assert_eq!(
        ok("let g = 1\nfn f() { let g = 2\nreturn g }\nprint f()\nprint g"),
        vec!["2", "1"]
    );
    assert_eq!(ok("fn f(n) { if n == 0 { return 0 }\nlet m = f(n - 1)\nreturn n }\nprint f(3)"), vec!["3"]);
    assert_eq!(ok("fn f() { }\nprint f()\nprint \"x\""), vec!["", "x"]);
}

#[test]
fn continue_goes_on_with_the_next_element() {
    assert_eq!(ok("let i = 0\nwhile i < 5 { let i = i + 1\nif i == 2 { continue }\nprint i }"), vec!["1", "3", "4", "5"]);
    assert_eq!(
        ok("for a in [1, 2] { for b in [10, 20] { if b == 10 { continue }\nprint a + b } }"),
        vec!["21", "22"]
    );
}

#[test]
fn dictionaries_are_in_key_order() {
    assert_eq!(ok("print {\"b\": 1, \"a\": [2], \"a b\": 3}"), vec!["{\"a\": [2], \"a b\": 3, \"b\": 1}"]);
    assert_eq!(ok("print values({\"b\": 1, \"a\": 2, \"b\": 3})"), vec!["[2, 3]"]);
    assert_eq!(ok("let d = {1: \"x\", 1.5: \"y\"}\nprint keys(d)\nprint length(d)"), vec!["[1, 1.5]", "2"]);
    assert_eq!(ok("print {}\nprint [{}]"), vec!["{}", "[{}]"]);
}

#[test]
fn values_as_text_and_truth() {
    assert_eq!(ok("print 1000000000000000\nprint 999999999999999\nprint 0.1 + 0.2\nprint -0.5"), vec!["1000000000000000", "999999999999999", "0.30000000000000004", "-0.5"]);
    assert_eq!(ok("print 1 == 1.0\nprint \"1\" == 1\nprint [1] == [1]\nprint \"b\" > \"a\"\nprint \"a\" <= \"a\""), vec!["true", "false", "false", "true", "true"]);
    assert_eq!(ok("print not 0\nprint not \"a\"\nprint not []\nprint not {\"a\": 1}\nprint !1"), vec!["true", "false", "true", "false", "false"]);
    assert_eq!(ok("print \"n\" + [1, true] + 2.5"), vec!["n[1, true]2.5"]);
    assert_eq!(ok("print length(\"h\u{e9}\")"), vec!["3"]);
    assert_eq!(Value::Number(Number::from_i64(-3)).format(), "-3");
    assert_eq!(Value::Nil.kind_name(), "none");
    assert!(!Value::Nil.is_truthy());
    assert!(Value::Number(Number::from_bits(f64::NAN.to_bits())).is_truthy());
}

#[test]
fn names_are_made_of_letters_digits_and_underscores() {
    assert_eq!(ok("let \u{e9}t\u{e9}_2 = 3\nprint \u{e9}t\u{e9}_2"), vec!["3"]);
    assert_eq!(ok("let _x = 1\nprint _x"), vec!["1"]);
    assert_eq!(ok("let lets = 2 # a comment\nprint lets"), vec!["2"]);
    assert_eq!(err_msg("let x = 1 \u{20ac}"), "[line 1, col 11] Error: Unexpected character: '\u{20ac}'");
    assert_eq!(err_msg("let 1x = 2"), "[line 1, col 5] Error: Expected identifier, found number '1'");
    let mut lexer = Lexer::new("a1 1a");
    let tokens = lexer.tokenize().unwrap();
    assert_eq!(tokens.len(), 4);
    assert_eq!(tokens[0].token.to_string(), "identifier 'a1'");
    assert_eq!(tokens[1].token.to_string(), "number '1'");
    assert_eq!(tokens[2].token.to_string(), "identifier 'a'");
    assert_eq!((tokens[2].line, tokens[2].column), (1, 5));
    let mut parser = Parser::new(tokens);
    assert!(parser.parse_program().is_err());
}

#[test]
fn more_input_is_needed_after_an_opening_brace() {
    assert!(needs_more_input("while true {"));
    assert!(!needs_more_input("print 1"));
    assert!(!needs_more_input(""));
    assert!(!needs_more_input("{ }"));
}

#[test]
fn a_fresh_compiler_compiles_the_empty_program() {
    let (main, functions) = Compiler::new().compile(Vec::new()).unwrap_or_else(|_| panic!());
    assert_eq!(main.code, vec![0xFF]);
    assert_eq!(main.lines, vec![0]);
    assert_eq!(main.name, "<main>");
    assert_eq!(functions.len(), 0);
}

#[test]
fn bytecode_of_a_small_program() {
    let (main, functions) = compiled("fn f(a, b) { return a }\nprint 1 and f(2, 3)");
    assert_eq!(
        main.code,
        vec![0x00, 0, 0x43, 0x00, 0x0d, 0x71, 0x00, 1, 0x00, 2, 0x50, 3, 2, 0x70, 0xFF]
    );
    let f = functions.get("f").unwrap();
    assert_eq!(f.code, vec![0x11, 0, 0x11, 1, 0x10, 1, 0x51, 0x52]);
    assert_eq!(f.param_count, 2);
    assert_eq!(f.lines, vec![1; 8]);
    assert!(matches!(&f.constants[0], Value::Str(s) if s == "b"));
}

#[test]
fn a_listing_of_bytecode() {
    let (main, functions) = compiled(
        "fn f(a) { return a }\nlet x = 1.5\nif x and true { print f(\"s\") }\nwhile false { }",
    );
    let expected = "== <main> ==\n\
0000     2  PUSH_CONST         0    '1.5'\n\
0002     |  STORE              1    'x'\n\
0004     3  LOAD               1    'x'\n\
0006     |  PEEK_JUMP_IF_FALSE 0x00 0x0b\n\
0009     |  POP\n\
0010     |  PUSH_TRUE\n\
0011     |  JUMP_IF_FALSE           -> 0020\n\
0014     |  PUSH_CONST         2    's'\n\
0016     |  CALL               3    'f' (1 args)\n\
0019     |  PRINT\n\
0020     4  PUSH_FALSE\n\
0021     |  JUMP_IF_FALSE           -> 0027\n\
0024     |  JUMP                    -> 0020\n\
0027     0  HALT\n";
    assert_eq!(main.disassemble(), expected);
    let f = functions.get("f").unwrap();
    assert_eq!(
        f.disassemble(),
        "== f ==\n0000     1  STORE              0    'a'\n0002     |  LOAD               0    'a'\n0004     |  RETURN\n0005     |  RETURN_NONE\n"
    );
    assert_eq!(f.constant_annotation(0), "'a'");
    assert_eq!(f.constant_annotation(9), "(out of range)");
    let mut odd = chunk_of(vec![0x99, 0x60, 0x07, 0x40]);
    odd.constants.push(Value::Number(Number::from_i64(-2)));
    odd.constants.push(Value::Bool(true));
    odd.constants.push(Value::Nil);
    odd.constants.push(Value::Array(Vec::new()));
    assert_eq!(
        odd.disassemble(),
        "== <made> ==\n0000     7  UNKNOWN(0x99)\n0001     |  MAKE_ARRAY         7    (out of range)\n0003     |  JUMP                    -> 0000\n"
    );
    assert_eq!(odd.constant_annotation(0), "'-2'");
    assert_eq!(odd.constant_annotation(1), "'true'");
    assert_eq!(odd.constant_annotation(2), "'none'");
    assert_eq!(odd.constant_annotation(3), "[array]");
}

#[test]
fn lines_of_a_session() {
    assert_eq!(line_kind("exit\n"), LineKind::Quit);
    assert_eq!(line_kind("  quit \r\n"), LineKind::Quit);
    assert_eq!(line_kind("quit now\n"), LineKind::Plain);
    assert_eq!(line_kind(""), LineKind::Blank);
    assert_eq!(line_kind(" \t\u{a0}\u{2003}\n"), LineKind::Blank);
    assert_eq!(line_kind("  }\n"), LineKind::Closes);
    assert_eq!(line_kind("} }\n"), LineKind::Plain);
    assert_eq!(line_kind("while x < 3 { \n"), LineKind::Opens);
    assert_eq!(line_kind("{\n"), LineKind::Opens);
    assert_eq!(line_kind("print \"{\"\n"), LineKind::Plain);
    assert_eq!(entry_kind("exit "), LineKind::Plain);
    assert_eq!(trim_line(" \n a b \t\n"), "a b");
    assert_eq!(trim_line("a"), "a");
    for line in ["  x { ", "\u{3000}y\u{85}", "", "   ", "}\n"] {
        assert_eq!(trim_line(line), line.trim());
    }
}

#[test]
fn a_dump_lists_the_functions_by_name() {
    let (main, functions) = compiled("fn zeta() { return 1 }\nfn alpha() { return 2 }\nfn mid() { }\nprint 1");
    let text = dump(&main, &functions);
    let mut expected = main.disassemble();
    for name in ["alpha", "mid", "zeta"] {
        expected.push('\n');
        expected.push_str(&functions.get(name).unwrap_or_else(|| panic!()).disassemble());
    }
    assert_eq!(text, expected);
    let heads: Vec<&str> = text.lines().filter(|l| l.starts_with("== ")).collect();
    assert_eq!(heads, vec!["== <main> ==", "== alpha ==", "== mid ==", "== zeta =="]);
    let (main, functions) = compiled("print 1");
    assert_eq!(dump(&main, &functions), main.disassemble());
}

#[test]
fn keys_come_in_ascending_order() {
    assert_eq!(
        ok("let d = {\"b\": 1, \"a\": 2}\nd[\"0\"] = 3\nd[10] = 4\nd[\"B\"] = 5\nprint keys(d)\nprint values(d)"),
        vec!["[0, 10, B, a, b]", "[3, 4, 5, 2, 1]"]
    );
}

#[test]
fn copies_are_equal_to_what_they_copy() {
    let mut lexer = Lexer::new("fn f(a) { if a { return [a, {\"k\": a}] } }\nprint f(1)[0]");
    let tokens = lexer.tokenize().unwrap_or_else(|_| panic!());
    let again = tokens.clone();
    assert_eq!(tokens.len(), again.len());
    for (t, u) in tokens.iter().zip(again.iter()) {
        assert!(t.token == u.token);
        assert_eq!((t.line, t.column), (u.line, u.column));
    }
    let program = Parser::new(tokens).parse_program().unwrap_or_else(|_| panic!());
    let twin = program.clone();
    assert_eq!(format!("{:?}", program), format!("{:?}", twin));
    let (main, _) = Compiler::new().compile(twin).unwrap_or_else(|_| panic!());
    let same = main.clone();
    assert_eq!(main.code, same.code);
    assert_eq!(main.disassemble(), same.disassemble());
    let v = Value::Array(vec![Value::Number(Number::from_u64(1)), Value::Bool(true)]);
    assert_eq!(v.clone().format(), "[1, true]");
}

#[test]
fn a_reply_must_fit_the_request() {
    let mut vm = Vm::new();
    assert!(!vm.accepts(&Reply::Written));
    let (main, functions) = compiled("let s = read_file(\"f\")\nprint s");
    vm.define(functions);
    vm.load(main);
    let effect = vm.resume(100).unwrap_or_else(|_| panic!());
    assert!(matches!(effect, Effect::Ask(Request::ReadFile(ref p)) if p == "f"));
    assert!(vm.accepts(&Reply::Contents("text".to_string())));
    assert!(vm.accepts(&Reply::Failed("gone".to_string())));
    assert!(!vm.accepts(&Reply::Written));
    assert!(!vm.accepts(&Reply::Line("x".to_string())));
    let e = vm.deliver(Reply::Failed("gone".to_string())).expect_err("the file is gone");
    assert!(matches!(e.kind, ErrorKind::FileRead { .. }));
    assert!(!vm.is_waiting());
    assert_eq!(vm.frame_count(), 1);
    assert!(vm.global("s").is_none());
}

#[test]
fn numbers_are_equal_as_numbers() {
    let zero = Number::from_u64(0);
    let minus_zero = zero.neg();
    let nan = Number::nan();
    assert!(zero == minus_zero);
    assert!(zero.to_bits() != minus_zero.to_bits());
    assert!(nan != nan);
    assert!(Number::from_u64(3) == Number::from_i64(3));
    assert!(Number::from_u64(3) != Number::from_u64(4));
}

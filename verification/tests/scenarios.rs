use rustfck::compile::{compile, CompileError};
use rustfck::frontend::code_gen::gen_program;
use rustfck::frontend::expr_tree::{Instruction, Program};
use rustfck::frontend::lexer::lex;
use rustfck::frontend::optimize::apply_optimizations;
use rustfck::frontend::parser::{parse, ParseError};
use rustfck::ir::exec::{Exec, Outcome};
use rustfck::ir::instruction::{BinaryOp, ConstInt, Expr, LeafExpr};
use rustfck::ir::instruction::Instruction as Op;
use rustfck::ir::optimize::optimize_module;
use rustfck::ir::printing::Printer;
use rustfck::ir::Module;

fn compile_by_hand(src: &[u8]) -> (Program, Module) {
    let tokens = lex(src);
    let ast = parse(&tokens).unwrap();
    let mut program = ast.gen_expr_tree();
    apply_optimizations(&mut program);
    let mut module = gen_program(&program);
    optimize_module(&mut module);
    (program, module)
}

fn run(src: &[u8], stdin: &[u8], fuel: u64) -> (Outcome, Vec<u8>) {
    let (_, module) = compile_by_hand(src);
    let mut exec = Exec::new(Vec::new(), stdin.to_vec());
    let outcome = exec.exec_program(&module, fuel);
    (outcome, exec.stdout().clone())
}

fn run_plain(src: &[u8], stdin: &[u8], fuel: u64) -> (Outcome, Vec<u8>) {
    let tokens = lex(src);
    let ast = parse(&tokens).unwrap();
    let program = ast.gen_expr_tree();
    let module = gen_program(&program);
    let mut exec = Exec::new(Vec::new(), stdin.to_vec());
    let outcome = exec.exec_program(&module, fuel);
    (outcome, exec.stdout().clone())
}

fn count_loops(body: &[Instruction]) -> usize {
    let mut n = 0;
    for i in body {
        match i {
            Instruction::Loop(_, _, inner) => n += 1 + count_loops(inner),
            Instruction::If(_, _, inner) => n += count_loops(inner),
            _ => {}
        }
    }
    n
}

fn is_one(l: &LeafExpr) -> bool {
    matches!(
        l,
        LeafExpr::Int(ConstInt::I8(1))
            | LeafExpr::Int(ConstInt::U8(1))
            | LeafExpr::Int(ConstInt::I64(1))
            | LeafExpr::Int(ConstInt::U64(1))
            | LeafExpr::Int(ConstInt::Bool(true))
    )
}

fn has_mul_by_one(module: &Module) -> bool {
    module.blocks.iter().any(|b| {
        b.body.iter().any(|i| match i {
            Op::Assign(_, Expr::Binary(a, BinaryOp::Mul, b)) => is_one(a) || is_one(b),
            _ => false,
        })
    })
}

#[test]
fn prints_capital_a() {
    let (outcome, out) = run(b"++++++++[>++++++++<-]>+.", b"", 100_000);
    assert_eq!(outcome, Outcome::Halted);
    assert_eq!(out, vec![0x41]);
}

#[test]
fn prints_capital_a_without_optimizing() {
    let (outcome, out) = run_plain(b"++++++++[>++++++++<-]>+.", b"", 100_000);
    assert_eq!(outcome, Outcome::Halted);
    assert_eq!(out, vec![0x41]);
}

#[test]
fn capital_a_has_no_loop_left() {
    let (program, module) = compile_by_hand(b"++++++++[>++++++++<-]>+.");
    assert_eq!(count_loops(&program.0), 0);
    assert!(!has_mul_by_one(&module));
}

#[test]
fn echoes_one_byte() {
    let (outcome, out) = run(b",.", b"Z", 100_000);
    assert_eq!(outcome, Outcome::Halted);
    assert_eq!(out, b"Z".to_vec());
}

#[test]
fn swaps_two_bytes() {
    let (outcome, out) = run(b",>,.<.", b"ab", 100_000);
    assert_eq!(outcome, Outcome::Halted);
    assert_eq!(out, b"ba".to_vec());
}

#[test]
fn swap_has_no_loop_left() {
    let (program, module) = compile_by_hand(b",>,.<.");
    assert_eq!(count_loops(&program.0), 0);
    assert!(!has_mul_by_one(&module));
}

#[test]
fn empty_loop_on_one_never_halts() {
    let (outcome, out) = run(b"+[]", b"", 100_000);
    assert_eq!(outcome, Outcome::OutOfFuel);
    assert!(out.is_empty());
}

#[test]
fn multiplies_three_by_two() {
    let (outcome, out) = run(b"+++[>++<-]>.", b"", 100_000);
    assert_eq!(outcome, Outcome::Halted);
    assert_eq!(out, vec![0x06]);
}

#[test]
fn multiplication_has_no_loop_left() {
    let (program, module) = compile_by_hand(b"+++[>++<-]>.");
    assert_eq!(count_loops(&program.0), 0);
    assert!(!has_mul_by_one(&module));
}

#[test]
fn echo_loop_repeats_input_then_last_byte() {
    // At the end of the input a read leaves the cell as it is, so the loop
    // goes on writing the last byte.
    let (outcome, out) = run(b",[.,]", b"hi\n", 10_000);
    assert_eq!(outcome, Outcome::OutOfFuel);
    assert_eq!(&out[..3], b"hi\n");
    assert!(out[3..].iter().all(|b| *b == b'\n'));
}

#[test]
fn echo_loop_stops_on_zero_byte() {
    let (outcome, out) = run(b",[.,]", b"hi\n\0", 10_000);
    assert_eq!(outcome, Outcome::Halted);
    assert_eq!(out, b"hi\n".to_vec());
}

#[test]
fn optimized_and_plain_agree_on_nested_loops() {
    let src = b"++[>+++[>++<-]<-]>>.";
    let (o1, out1) = run(src, b"", 1_000_000);
    let (o2, out2) = run_plain(src, b"", 1_000_000);
    assert_eq!(o1, Outcome::Halted);
    assert_eq!(o2, Outcome::Halted);
    assert_eq!(out1, vec![12]);
    assert_eq!(out2, vec![12]);
}

#[test]
fn unbalanced_loop_finds_zero_cell() {
    // Fill three cells, go back to the first, then walk right to the first zero.
    let src = b"+>+>+<<[>]<.";
    let (o1, out1) = run(src, b"", 1_000_000);
    let (o2, out2) = run_plain(src, b"", 1_000_000);
    assert_eq!(o1, Outcome::Halted);
    assert_eq!(out1, vec![1]);
    assert_eq!(o2, Outcome::Halted);
    assert_eq!(out2, vec![1]);
}

fn text_of(module: &Module) -> String {
    let mut printer = Printer::new(String::new());
    printer.print_module(module);
    printer.out
}

#[test]
fn compile_gives_the_module_of_the_pipeline() {
    for src in [&b"++++++++[>++++++++<-]>+."[..], &b",[.,]"[..], &b""[..], &b"+[>+]"[..]] {
        let (_, expected) = compile_by_hand(src);
        let module = compile(src).ok().unwrap();
        assert_eq!(text_of(&module), text_of(&expected));
        assert_eq!(module.blocks.len(), expected.blocks.len());
        assert_eq!(module.registers.len(), expected.registers.len());
    }
}

#[test]
fn compile_runs_the_program() {
    let module = compile(b"+++[>++<-]>.").ok().unwrap();
    let mut exec = Exec::new(Vec::new(), Vec::new());
    assert_eq!(exec.exec_program(&module, 10_000), Outcome::Halted);
    assert_eq!(exec.stdout(), &vec![6]);
}

#[test]
fn compile_reports_what_the_parser_reports() {
    assert_eq!(
        compile(b"+[[-]").err(),
        Some(CompileError::Parse(ParseError::UnmatchedOpen { position: 1 }))
    );
    assert_eq!(
        compile(b"+]").err(),
        Some(CompileError::Parse(ParseError::UnmatchedClose { position: 1 }))
    );
}

use rustfck::frontend::ast::{Ast, AstNode};
use rustfck::frontend::code_gen::gen_program;
use rustfck::frontend::coverage::is_covered;
use rustfck::frontend::expr_tree::{BoundsRange, Instruction, Program};
use rustfck::frontend::lexer::lex;
use rustfck::frontend::optimize::{apply_optimizations, can_optimize};
use rustfck::frontend::parser::parse;
use rustfck::ir::exec::{Exec, Fault, Outcome};
use rustfck::ir::optimize::optimize_module;

/// How a run of the tape machine on the syntax tree ended.
#[derive(Debug, PartialEq, Eq)]
enum End {
    Halted,
    OutOfFuel,
    LeftTheTape,
}

/// The tape machine itself, on the syntax tree: a tape that grows to the
/// right, and a read that leaves the cell as it is where no byte is left.
struct Tape {
    cells: Vec<u8>,
    pointer: isize,
    input: Vec<u8>,
    next: usize,
    output: Vec<u8>,
    fuel: u64,
}

impl Tape {
    fn cell(&mut self) -> Option<&mut u8> {
        if self.pointer < 0 {
            return None;
        }
        let at = self.pointer as usize;
        if at >= self.cells.len() {
            self.cells.resize(at + 1, 0);
        }
        Some(&mut self.cells[at])
    }

    fn run(&mut self, nodes: &[AstNode]) -> End {
        for node in nodes {
            match node {
                AstNode::Move(d) => self.pointer += *d,
                AstNode::Modify(a) => match self.cell() {
                    Some(c) => *c = c.wrapping_add(*a as u8),
                    None => return End::LeftTheTape,
                },
                AstNode::SetCell(v) => match self.cell() {
                    Some(c) => *c = *v,
                    None => return End::LeftTheTape,
                },
                AstNode::Output => match self.cell() {
                    Some(c) => {
                        let v = *c;
                        self.output.push(v)
                    }
                    None => return End::LeftTheTape,
                },
                AstNode::Input => {
                    let byte = self.input.get(self.next).copied();
                    match self.cell() {
                        Some(c) => {
                            if let Some(b) = byte {
                                *c = b;
                            }
                        }
                        None => return End::LeftTheTape,
                    }
                    if byte.is_some() {
                        self.next += 1;
                    }
                }
                AstNode::Loop(body) => loop {
                    match self.cell() {
                        Some(c) => {
                            if *c == 0 {
                                break;
                            }
                        }
                        None => return End::LeftTheTape,
                    }
                    if self.fuel == 0 {
                        return End::OutOfFuel;
                    }
                    self.fuel -= 1;
                    match self.run(body) {
                        End::Halted => {}
                        other => return other,
                    }
                },
            }
        }
        End::Halted
    }
}

fn reference(ast: &Ast, stdin: &[u8]) -> (End, Vec<u8>) {
    let mut tape = Tape {
        cells: Vec::new(),
        pointer: 0,
        input: stdin.to_vec(),
        next: 0,
        output: Vec::new(),
        fuel: 1_000_000,
    };
    let end = tape.run(&ast.0);
    (end, tape.output)
}

fn lowered_plain(ast: &Ast, stdin: &[u8]) -> (Outcome, Vec<u8>) {
    let program = ast.gen_expr_tree();
    assert!(is_covered(&program));
    let module = gen_program(&program);
    let mut exec = Exec::new(Vec::new(), stdin.to_vec());
    let outcome = exec.exec_program(&module, 50_000_000);
    (outcome, exec.stdout().clone())
}

fn lowered_optimized(ast: &Ast, stdin: &[u8], sweep: bool) -> (Outcome, Vec<u8>) {
    let mut program = ast.gen_expr_tree();
    assert!(can_optimize(&program));
    apply_optimizations(&mut program);
    assert!(is_covered(&program));
    let mut module = gen_program(&program);
    if sweep {
        optimize_module(&mut module);
    }
    let mut exec = Exec::new(Vec::new(), stdin.to_vec());
    let outcome = exec.exec_program(&module, 50_000_000);
    (outcome, exec.stdout().clone())
}

fn agree_on(src: &[u8], stdin: &[u8]) -> Vec<u8> {
    let ast = parse(&lex(src)).unwrap();
    let (end, expected) = reference(&ast, stdin);
    assert_eq!(end, End::Halted);
    let (outcome, out) = lowered_plain(&ast, stdin);
    assert_eq!(outcome, Outcome::Halted);
    assert_eq!(out, expected);
    let (outcome, out) = lowered_optimized(&ast, stdin, false);
    assert_eq!(outcome, Outcome::Halted);
    assert_eq!(out, expected);
    let (outcome, out) = lowered_optimized(&ast, stdin, true);
    assert_eq!(outcome, Outcome::Halted);
    assert_eq!(out, expected);
    expected
}

#[test]
fn lowering_writes_what_the_tape_machine_writes() {
    let hello: &[u8] = b"++++++++[>++++[>++>+++>+++>+<<<<-]>+>+>->>+[<]<-]>>.>---.+++++++..+++.>>.<-.<.+++.------.--------.>>+.>++.";
    assert_eq!(agree_on(hello, b""), b"Hello World!\n".to_vec());
}

#[test]
fn lowering_agrees_on_straight_code() {
    assert_eq!(agree_on(b"+++.>++.<.>>+.<<-.", b""), vec![3, 2, 3, 1, 2]);
    assert_eq!(agree_on(b"-.--.", b""), vec![255, 253]);
    assert_eq!(agree_on(b"", b""), Vec::<u8>::new());
}

#[test]
fn lowering_agrees_on_input() {
    assert_eq!(agree_on(b",.,.,.", b"ab"), vec![b'a', b'b', b'b']);
    assert_eq!(agree_on(b",+.>,+.<.", b"\x01\xff"), vec![2, 0, 2]);
    assert_eq!(agree_on(b",[.,]", b"abc\0d"), b"abc".to_vec());
}

#[test]
fn lowering_agrees_on_balanced_loops() {
    assert_eq!(agree_on(b"+++[>++<-]>.", b""), vec![6]);
    assert_eq!(agree_on(b"++[>+++[>++<-]<-]>>.", b""), vec![12]);
    assert_eq!(agree_on(b"+++++[-]>+.<.", b""), vec![1, 0]);
    assert_eq!(agree_on(b"++>+++<[>[>+>+<<-]>>[<<+>>-]<<<-]>>.", b""), vec![6]);
}

#[test]
fn lowering_agrees_on_unbalanced_loops() {
    assert_eq!(agree_on(b"+>+>+>>+<<<<[>]+.>.", b""), vec![1, 1]);
    assert_eq!(agree_on(b">>+<<+[>]>.<<.", b""), vec![1, 1]);
    assert_eq!(agree_on(b">+>++>+++[.<]", b""), vec![3, 2, 1]);
    assert_eq!(agree_on(b">,[>,]<[.<]", b"xyz"), b"zyx".to_vec());
}

#[test]
fn lowering_agrees_on_a_loop_that_never_runs() {
    assert_eq!(agree_on(b"[>+++<-]>.", b""), vec![0]);
    assert_eq!(agree_on(b"[>>>>>>>>+<<<<<<<<-]+.", b""), vec![1]);
    assert_eq!(agree_on(b"[[>]<]+.", b""), vec![1]);
}

#[test]
fn a_program_that_leaves_the_tape_fails() {
    let ast = parse(&lex(b"<+.")).unwrap();
    assert_eq!(reference(&ast, b"").0, End::LeftTheTape);
    let (outcome, out) = lowered_plain(&ast, b"");
    assert_eq!(outcome, Outcome::Fault(Fault::OutOfBounds));
    assert_eq!(out, Vec::<u8>::new());
}

#[test]
fn a_program_that_returns_to_the_tape_goes_on() {
    assert_eq!(agree_on(b"<>+.", b""), vec![1]);
    assert_eq!(agree_on(b"+<<>>.", b""), vec![1]);
}

fn check(start: isize, length: usize) -> Instruction {
    Instruction::BoundsCheck(BoundsRange { start, length })
}

#[test]
fn an_access_needs_a_check_before_it() {
    assert!(is_covered(&Program(vec![])));
    assert!(!is_covered(&Program(vec![Instruction::Modify(0, 1)])));
    assert!(is_covered(&Program(vec![check(0, 1), Instruction::Modify(0, 1)])));
    assert!(!is_covered(&Program(vec![check(0, 1), Instruction::Modify(1, 1)])));
    assert!(!is_covered(&Program(vec![check(0, 1), Instruction::Output(-1)])));
    assert!(!is_covered(&Program(vec![Instruction::Input(0), check(0, 1)])));
    assert!(is_covered(&Program(vec![
        check(0, 1),
        check(2, 1),
        Instruction::AddMultiple { target: 1, base: 2, factor: 3 },
    ])));
    assert!(!is_covered(&Program(vec![
        check(0, 2),
        Instruction::AddMultiple { target: 1, base: 2, factor: 3 },
    ])));
}

#[test]
fn what_is_checked_moves_with_the_pointer() {
    assert!(is_covered(&Program(vec![check(0, 2), Instruction::Move(1), Instruction::Output(0)])));
    assert!(!is_covered(&Program(vec![check(0, 1), Instruction::Move(1), Instruction::Output(0)])));
    assert!(is_covered(&Program(vec![
        check(0, 1),
        Instruction::Move(1),
        Instruction::Move(-1),
        Instruction::SetCell(0, 7),
    ])));
}

#[test]
fn a_balanced_block_must_keep_the_pointer() {
    let still = vec![Instruction::Modify(0, -1)];
    let moving = vec![Instruction::Move(1)];
    assert!(is_covered(&Program(vec![check(0, 1), Instruction::Loop(true, 0, still.clone())])));
    assert!(!is_covered(&Program(vec![check(0, 1), Instruction::Loop(true, 0, moving.clone())])));
    assert!(is_covered(&Program(vec![check(0, 1), Instruction::If(true, 0, still)])));
    assert!(!is_covered(&Program(vec![check(0, 1), Instruction::If(true, 0, moving)])));
    assert!(!is_covered(&Program(vec![Instruction::Loop(true, 0, vec![])])));
}

#[test]
fn a_balanced_body_starts_from_what_is_known_before() {
    let body = vec![Instruction::Modify(1, 1), Instruction::Modify(0, -1)];
    assert!(is_covered(&Program(vec![check(0, 2), Instruction::Loop(true, 0, body.clone())])));
    assert!(!is_covered(&Program(vec![check(0, 1), Instruction::Loop(true, 0, body)])));
    let checks = vec![check(1, 1), Instruction::Modify(1, 1)];
    assert!(!is_covered(&Program(vec![
        check(0, 1),
        Instruction::Loop(true, 0, checks),
        Instruction::Output(1),
    ])));
}

#[test]
fn an_unbalanced_loop_must_come_back_to_a_checked_guard() {
    assert!(!is_covered(&Program(vec![
        check(0, 1),
        Instruction::Loop(false, 0, vec![Instruction::Move(1)]),
    ])));
    assert!(is_covered(&Program(vec![
        check(0, 1),
        Instruction::Loop(false, 0, vec![check(1, 1), Instruction::Move(1)]),
        Instruction::Output(0),
    ])));
    assert!(!is_covered(&Program(vec![
        check(0, 2),
        Instruction::Loop(false, 0, vec![check(1, 1), Instruction::Move(1)]),
        Instruction::Output(1),
    ])));
    assert!(!is_covered(&Program(vec![
        check(0, 2),
        Instruction::If(false, 0, vec![Instruction::Move(1)]),
        Instruction::Output(0),
    ])));
}

#[test]
fn the_tree_of_a_program_is_covered_before_and_after_the_schedule() {
    for src in [
        &b"++++++++[>++++++++<-]>+."[..],
        &b",>,.<."[..],
        &b"+[>+]"[..],
        &b">>[-]<<[->>+<<]"[..],
        &b"[[[<]>]>]"[..],
        &b"++[>+<-]"[..],
        &b"+[>>+<<-]"[..],
        &b"[>>>+<<<-]"[..],
        &b"+>+<[>[>+<-]<-]"[..],
        &b",[>+>+<<-]>>[<<+>>-]"[..],
    ] {
        let ast = parse(&lex(src)).unwrap();
        let mut program = ast.gen_expr_tree();
        assert!(is_covered(&program));
        assert!(can_optimize(&program));
        apply_optimizations(&mut program);
        assert!(is_covered(&program));
    }
}

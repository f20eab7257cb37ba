use rustfck::ir::block::{Block, BlockID};
use rustfck::ir::builder::Builder;
use rustfck::ir::exec::{Exec, Fault, Outcome, Value};
use rustfck::ir::instruction::{
    BinaryOp, ConstInt, Expr, Instruction, LeafExpr, TargetBlock, TestOp, UnaryOp,
};
use rustfck::ir::optimize::{
    do_constant_operations, local_cse, optimize_module, propagate_leaf_assigns,
    remove_dead_assignments, remove_identity_muls, remove_negating_muls, remove_nops,
};
use rustfck::ir::printing::Printer;
use rustfck::ir::register::{Register, RegisterID};
use rustfck::ir::types::Type;
use rustfck::ir::Module;
use std::collections::{HashMap, HashSet};

fn reg(n: usize) -> LeafExpr {
    LeafExpr::Register(RegisterID(n))
}

fn module_with(body: Vec<Instruction>, registers: &[Type]) -> Module {
    let mut m = Module::new();
    let entry = m.add_block();
    m.set_entry_block(entry);
    for t in registers {
        m.add_register(*t);
    }
    m.block_mut(entry).unwrap().body = body;
    m
}

fn run(m: &Module, stdin: &[u8], fuel: u64) -> (Outcome, Vec<u8>) {
    let mut exec = Exec::new(Vec::new(), stdin.to_vec());
    let outcome = exec.exec_program(m, fuel);
    (outcome, exec.stdout().clone())
}

#[test]
fn binary_operations_on_bytes() {
    let a = Value::I8(200);
    let b = Value::I8(100);
    assert_eq!(Value::do_binary_op(a, b, BinaryOp::Add), Value::I8(44));
    assert_eq!(Value::do_binary_op(b, a, BinaryOp::Sub), Value::I8(156));
    assert_eq!(Value::do_binary_op(a, b, BinaryOp::Mul), Value::I8(32));
    assert_eq!(Value::do_binary_op(a, Value::I8(7), BinaryOp::UDiv), Value::I8(28));
    assert_eq!(Value::do_binary_op(a, Value::I8(7), BinaryOp::UMod), Value::I8(4));
    assert_eq!(Value::do_binary_op(a, b, BinaryOp::And), Value::I8(64));
    assert_eq!(Value::do_binary_op(a, b, BinaryOp::Or), Value::I8(236));
    assert_eq!(Value::do_binary_op(a, b, BinaryOp::Xor), Value::I8(172));
}

#[test]
fn signed_division_rounds_towards_zero() {
    // -56 / 7 = -8, -56 / -7 = 8, -57 / 7 = -8 remainder -1
    assert_eq!(Value::do_binary_op(Value::I8(200), Value::I8(7), BinaryOp::IDiv), Value::I8(248));
    assert_eq!(Value::do_binary_op(Value::I8(200), Value::I8(249), BinaryOp::IDiv), Value::I8(8));
    assert_eq!(Value::do_binary_op(Value::I8(199), Value::I8(7), BinaryOp::IDiv), Value::I8(248));
    assert_eq!(Value::do_binary_op(Value::I8(199), Value::I8(7), BinaryOp::IMod), Value::I8(255));
    assert_eq!(Value::do_binary_op(Value::I8(57), Value::I8(249), BinaryOp::IMod), Value::I8(1));
    // -128 / -1 wraps around to -128, with remainder 0
    assert_eq!(Value::do_binary_op(Value::I8(128), Value::I8(255), BinaryOp::IDiv), Value::I8(128));
    assert_eq!(Value::do_binary_op(Value::I8(128), Value::I8(255), BinaryOp::IMod), Value::I8(0));
}

#[test]
fn binary_operations_on_words() {
    let max = Value::I64(u64::MAX);
    assert_eq!(Value::do_binary_op(max, Value::I64(2), BinaryOp::Add), Value::I64(1));
    assert_eq!(Value::do_binary_op(Value::I64(0), Value::I64(1), BinaryOp::Sub), max);
    assert_eq!(Value::do_binary_op(max, max, BinaryOp::Mul), Value::I64(1));
    assert_eq!(Value::do_binary_op(max, Value::I64(2), BinaryOp::IDiv), Value::I64(0));
    assert_eq!(
        Value::do_binary_op(Value::I64((-7i64) as u64), Value::I64(2), BinaryOp::IDiv),
        Value::I64((-3i64) as u64)
    );
    assert_eq!(
        Value::do_binary_op(Value::I64((-7i64) as u64), Value::I64(2), BinaryOp::IMod),
        Value::I64((-1i64) as u64)
    );
    assert_eq!(
        Value::do_binary_op(Value::I64(1 << 63), max, BinaryOp::IDiv),
        Value::I64(1 << 63)
    );
    assert_eq!(Value::do_binary_op(max, Value::I64(10), BinaryOp::UMod), Value::I64(5));
}

#[test]
fn binary_operations_on_bits() {
    let t = Value::I1(true);
    let f = Value::I1(false);
    assert_eq!(Value::do_binary_op(t, t, BinaryOp::Add), f);
    assert_eq!(Value::do_binary_op(t, f, BinaryOp::Sub), t);
    assert_eq!(Value::do_binary_op(t, f, BinaryOp::Mul), f);
    assert_eq!(Value::do_binary_op(t, f, BinaryOp::UDiv), t);
    assert_eq!(Value::do_binary_op(t, t, BinaryOp::UMod), f);
    assert_eq!(Value::do_binary_op(t, f, BinaryOp::Or), t);
    assert_eq!(Value::do_binary_op(t, f, BinaryOp::And), f);
    assert_eq!(Value::do_binary_op(t, t, BinaryOp::Xor), f);
}

#[test]
fn binary_operations_are_defined_on_like_operands() {
    assert!(Value::binary_op_defined(Value::I8(1), Value::I8(0), BinaryOp::Add));
    assert!(!Value::binary_op_defined(Value::I8(1), Value::I8(0), BinaryOp::UDiv));
    assert!(!Value::binary_op_defined(Value::I8(1), Value::I8(0), BinaryOp::IMod));
    assert!(!Value::binary_op_defined(Value::I8(1), Value::I64(1), BinaryOp::Add));
    assert!(!Value::binary_op_defined(Value::Uninit, Value::Uninit, BinaryOp::Add));
    assert!(!Value::binary_op_defined(Value::I1(true), Value::I1(true), BinaryOp::IDiv));
    assert!(Value::binary_op_defined(Value::I1(true), Value::I1(false), BinaryOp::UDiv));
}

#[test]
fn unary_operations() {
    assert_eq!(Value::do_unary_op(Value::I8(1), UnaryOp::Neg), Value::I8(255));
    assert_eq!(Value::do_unary_op(Value::I8(0), UnaryOp::Neg), Value::I8(0));
    assert_eq!(Value::do_unary_op(Value::I8(0x0f), UnaryOp::Not), Value::I8(0xf0));
    assert_eq!(Value::do_unary_op(Value::I64(1), UnaryOp::Neg), Value::I64(u64::MAX));
    assert_eq!(Value::do_unary_op(Value::I64(0), UnaryOp::Not), Value::I64(u64::MAX));
    assert_eq!(Value::do_unary_op(Value::I1(true), UnaryOp::Neg), Value::I1(true));
    assert_eq!(Value::do_unary_op(Value::I1(true), UnaryOp::Not), Value::I1(false));
}

#[test]
fn test_operations() {
    assert_eq!(Value::do_test_op(Value::I8(3), Value::I8(3), TestOp::Equal), Value::I1(true));
    assert_eq!(Value::do_test_op(Value::I8(3), Value::I8(4), TestOp::Equal), Value::I1(false));
    assert_eq!(Value::do_test_op(Value::I64(3), Value::I64(4), TestOp::NotEqual), Value::I1(true));
    assert_eq!(
        Value::do_test_op(Value::I1(true), Value::I1(true), TestOp::NotEqual),
        Value::I1(false)
    );
}

#[test]
fn values_become_unsigned_constants() {
    assert_eq!(Value::I1(true).to_leaf_expr(), LeafExpr::Int(ConstInt::Bool(true)));
    assert_eq!(Value::I8(200).to_leaf_expr(), LeafExpr::Int(ConstInt::U8(200)));
    assert_eq!(Value::I64(7).to_leaf_expr(), LeafExpr::Int(ConstInt::U64(7)));
}

#[test]
fn constants_evaluate_to_their_bits() {
    assert_eq!(LeafExpr::Int(ConstInt::I8(-1)).eval_const(), Some(Value::I8(255)));
    assert_eq!(LeafExpr::Int(ConstInt::I8(-128)).eval_const(), Some(Value::I8(128)));
    assert_eq!(LeafExpr::Int(ConstInt::I64(-1)).eval_const(), Some(Value::I64(u64::MAX)));
    assert_eq!(LeafExpr::Int(ConstInt::I64(i64::MIN)).eval_const(), Some(Value::I64(1 << 63)));
    assert_eq!(LeafExpr::Int(ConstInt::U8(7)).eval_const(), Some(Value::I8(7)));
    assert_eq!(LeafExpr::Int(ConstInt::Bool(true)).eval_const(), Some(Value::I1(true)));
    assert_eq!(reg(0).eval_const(), None);
}

#[test]
fn expressions_of_constants_evaluate() {
    let two = LeafExpr::Int(ConstInt::U8(2));
    let minus = LeafExpr::Int(ConstInt::I8(-3));
    assert_eq!(Expr::Binary(two, BinaryOp::Mul, minus).eval_const(), Some(Value::I8(250)));
    assert_eq!(Expr::Unary(minus, UnaryOp::Neg).eval_const(), Some(Value::I8(3)));
    assert_eq!(Expr::Test(two, TestOp::Equal, two).eval_const(), Some(Value::I1(true)));
    assert_eq!(Expr::Leaf(two).eval_const(), Some(Value::I8(2)));
    assert_eq!(Expr::Binary(two, BinaryOp::Add, reg(0)).eval_const(), None);
    assert_eq!(Expr::Binary(reg(0), BinaryOp::Add, two).eval_const(), None);
    let zero = LeafExpr::Int(ConstInt::U8(0));
    assert_eq!(Expr::Binary(two, BinaryOp::UDiv, zero).eval_const(), None);
    let word = LeafExpr::Int(ConstInt::U64(2));
    assert_eq!(Expr::Binary(two, BinaryOp::Add, word).eval_const(), None);
}

#[test]
fn multiplicative_constants() {
    assert!(ConstInt::I8(-1).is_multiplicative_negation());
    assert!(ConstInt::U8(255).is_multiplicative_negation());
    assert!(ConstInt::I64(-1).is_multiplicative_negation());
    assert!(ConstInt::U64(u64::MAX).is_multiplicative_negation());
    assert!(!ConstInt::Bool(true).is_multiplicative_negation());
    assert!(!ConstInt::Bool(false).is_multiplicative_negation());
    assert!(!ConstInt::U8(1).is_multiplicative_negation());
    assert!(ConstInt::Bool(true).is_multiplicative_identity());
    assert!(!ConstInt::Bool(false).is_multiplicative_identity());
    assert!(ConstInt::I8(1).is_multiplicative_identity());
    assert!(ConstInt::U64(1).is_multiplicative_identity());
    assert!(!ConstInt::U64(2).is_multiplicative_identity());
    assert!(!reg(1).is_constant_multiplicative_identity());
    assert!(!reg(1).is_constant_multiplicative_negation());
    assert!(LeafExpr::Int(ConstInt::I8(1)).is_constant_multiplicative_identity());
    assert!(LeafExpr::Int(ConstInt::I8(-1)).is_constant_multiplicative_negation());
}

#[test]
fn constants_have_types() {
    assert_eq!(ConstInt::Bool(true).int_type(), Type::I1);
    assert_eq!(ConstInt::I8(0).int_type(), Type::I8);
    assert_eq!(ConstInt::U8(0).int_type(), Type::I8);
    assert_eq!(ConstInt::I64(0).int_type(), Type::I64);
    assert_eq!(ConstInt::U64(0).int_type(), Type::I64);
}

#[test]
fn conversions_into_operands() {
    assert_eq!(LeafExpr::from(5u64), LeafExpr::Int(ConstInt::U64(5)));
    assert_eq!(LeafExpr::from(-5i8), LeafExpr::Int(ConstInt::I8(-5)));
    assert_eq!(LeafExpr::from(true), LeafExpr::Int(ConstInt::Bool(true)));
    assert_eq!(LeafExpr::from(RegisterID(3)), reg(3));
    assert_eq!(ConstInt::from(7u8), ConstInt::U8(7));
    assert_eq!(ConstInt::from(-7i64), ConstInt::I64(-7));
    assert_eq!(BlockID::from(4), BlockID(4));
    assert_eq!(RegisterID::from(4), RegisterID(4));
    assert_eq!(TargetBlock::from(BlockID(2)), TargetBlock::new(BlockID(2), vec![]));
    assert_eq!(
        TargetBlock::from((BlockID(2), reg(1))),
        TargetBlock::new(BlockID(2), vec![reg(1)])
    );
}

#[test]
fn uses_and_contains() {
    let r1 = RegisterID(1);
    let r2 = RegisterID(2);
    assert!(reg(1).contains(r1));
    assert!(!reg(1).contains(r2));
    assert!(!LeafExpr::Int(ConstInt::U8(1)).contains(r1));
    assert_eq!(reg(1).as_register(), Some(r1));
    assert_eq!(LeafExpr::Int(ConstInt::U8(1)).as_register(), None);
    assert!(Expr::Binary(reg(1), BinaryOp::Add, reg(2)).contains(r2));
    assert!(!Expr::Unary(reg(1), UnaryOp::Neg).contains(r2));
    assert!(Expr::Leaf(reg(2)).is_leaf());
    assert!(!Expr::Unary(reg(2), UnaryOp::Not).is_leaf());
    let t = TargetBlock::new(BlockID(0), vec![reg(1), LeafExpr::Int(ConstInt::U8(1))]);
    assert!(t.uses(r1));
    assert!(!t.uses(r2));
    assert!(Instruction::Assign(r1, Expr::Leaf(reg(2))).uses(r2));
    assert!(!Instruction::Assign(r1, Expr::Leaf(reg(2))).uses(r1));
    assert!(Instruction::Branch(reg(0), t.clone(), TargetBlock::new(BlockID(1), vec![reg(2)])).uses(r2));
    assert!(!Instruction::Nop.uses(r1));
    assert!(Instruction::StoreCell(reg(1), reg(2)).uses(r1));
    assert!(Instruction::LoadCell(r1, reg(2)).uses(r2));
    assert!(!Instruction::LoadCell(r1, reg(2)).uses(r1));
    assert!(Instruction::Jump(t).uses(r1));
}

#[test]
fn replacing_usages_reports_what_it_changed() {
    let mut map: HashMap<usize, LeafExpr> = HashMap::new();
    map.insert(1, LeafExpr::Int(ConstInt::U8(9)));
    map.insert(2, reg(5));
    let mut i = Instruction::Branch(
        reg(1),
        TargetBlock::new(BlockID(0), vec![reg(2), reg(3)]),
        TargetBlock::new(BlockID(1), vec![reg(1)]),
    );
    assert!(i.replace_usages(&map));
    assert_eq!(
        i,
        Instruction::Branch(
            LeafExpr::Int(ConstInt::U8(9)),
            TargetBlock::new(BlockID(0), vec![reg(5), reg(3)]),
            TargetBlock::new(BlockID(1), vec![LeafExpr::Int(ConstInt::U8(9))]),
        )
    );
    let mut a = Instruction::Assign(RegisterID(1), Expr::Binary(reg(1), BinaryOp::Add, reg(2)));
    assert!(a.replace_usages(&map));
    assert_eq!(
        a,
        Instruction::Assign(
            RegisterID(1),
            Expr::Binary(LeafExpr::Int(ConstInt::U8(9)), BinaryOp::Add, reg(5))
        )
    );
    let mut e = Expr::Test(reg(2), TestOp::Equal, reg(4));
    assert!(e.replace_usages(&map));
    assert_eq!(e, Expr::Test(reg(5), TestOp::Equal, reg(4)));
    let mut l = reg(2);
    assert!(l.replace_usage(&map));
    assert_eq!(l, reg(5));
}

#[test]
fn replacing_usages_reports_nothing_where_nothing_changes() {
    let mut map: HashMap<usize, LeafExpr> = HashMap::new();
    map.insert(1, LeafExpr::Int(ConstInt::U8(9)));
    map.insert(7, reg(7));
    let mut l = reg(3);
    assert!(!l.replace_usage(&map));
    assert_eq!(l, reg(3));
    let mut same = reg(7);
    assert!(!same.replace_usage(&map));
    assert_eq!(same, reg(7));
    let mut c = LeafExpr::Int(ConstInt::U8(1));
    assert!(!c.replace_usage(&map));
    let mut e = Expr::Binary(reg(3), BinaryOp::Add, reg(7));
    assert!(!e.replace_usages(&map));
    assert_eq!(e, Expr::Binary(reg(3), BinaryOp::Add, reg(7)));
    let mut second = Expr::Binary(reg(3), BinaryOp::Add, reg(1));
    assert!(second.replace_usages(&map));
    let mut t = TargetBlock::new(BlockID(0), vec![reg(3), reg(7)]);
    assert!(!t.replace_usages(&map));
    let mut u = TargetBlock::new(BlockID(0), vec![reg(3), reg(1)]);
    assert!(u.replace_usages(&map));
    assert_eq!(u, TargetBlock::new(BlockID(0), vec![reg(3), LeafExpr::Int(ConstInt::U8(9))]));
    let mut i = Instruction::Branch(
        reg(3),
        TargetBlock::new(BlockID(0), vec![reg(7)]),
        TargetBlock::new(BlockID(1), vec![]),
    );
    assert!(!i.replace_usages(&map));
    let mut j = Instruction::Branch(
        reg(3),
        TargetBlock::new(BlockID(0), vec![reg(7)]),
        TargetBlock::new(BlockID(1), vec![reg(1)]),
    );
    assert!(j.replace_usages(&map));
    let mut n = Instruction::Nop;
    assert!(!n.replace_usages(&map));
}

#[test]
fn replacing_in_a_branch_reports_a_change() {
    let mut map: HashMap<usize, LeafExpr> = HashMap::new();
    map.insert(1, LeafExpr::from(true));
    let mut i = Instruction::Branch(
        reg(1),
        TargetBlock::new(BlockID(1), vec![reg(1)]),
        TargetBlock::new(BlockID(2), vec![reg(2)]),
    );
    assert!(i.replace_usages(&map));
    assert_eq!(
        i,
        Instruction::Branch(
            LeafExpr::from(true),
            TargetBlock::new(BlockID(1), vec![LeafExpr::from(true)]),
            TargetBlock::new(BlockID(2), vec![reg(2)]),
        )
    );
}

#[test]
fn module_hands_out_places_in_order() {
    let mut m = Module::new();
    assert_eq!(m.add_block(), BlockID(0));
    assert_eq!(m.add_block(), BlockID(1));
    assert_eq!(m.add_register(Type::I8), RegisterID(0));
    assert_eq!(m.add_parameter(BlockID(1), Type::I64), RegisterID(1));
    assert_eq!(m.block(BlockID(1)).unwrap().parameters(), &[RegisterID(1)]);
    assert_eq!(m.block(BlockID(1)).unwrap().parameter(0), RegisterID(1));
    assert_eq!(m.block(BlockID(0)).unwrap().id(), BlockID(0));
    assert!(m.block(BlockID(2)).is_none());
    assert_eq!(m.reg(RegisterID(1)).unwrap().register_type(), Type::I64);
    assert_eq!(*m.reg(RegisterID(0)).unwrap(), Register::new(RegisterID(0), Type::I8));
    assert!(m.reg(RegisterID(2)).is_none());
    assert!(m.block_mut(BlockID(2)).is_none());
    assert!(m.reg_mut(RegisterID(2)).is_none());
    m.block_mut(BlockID(0)).unwrap().add_instruction(Instruction::Nop);
    assert_eq!(m.block(BlockID(0)).unwrap().body(), &[Instruction::Nop]);
    assert_eq!(*m.block(BlockID(0)).unwrap().instruction(0), Instruction::Nop);
    *m.reg_mut(RegisterID(0)).unwrap() = Register::new(RegisterID(0), Type::I1);
    assert_eq!(m.reg(RegisterID(0)).unwrap().register_type(), Type::I1);
    let b = Block::new(BlockID(7));
    assert_eq!(b.id(), BlockID(7));
    assert!(b.body().is_empty());
    assert!(b.parameters().is_empty());
}

#[test]
fn builder_appends_typed_instructions() {
    let mut m = Module::new();
    let entry = m.add_block();
    m.set_entry_block(entry);
    {
        let mut b = Builder::new(&mut m, entry);
        let index = b.set(LeafExpr::from(0u64));
        let cell = b.load_cell(LeafExpr::Register(index));
        let sum = b.add(LeafExpr::Register(cell), LeafExpr::from(1i8));
        let not = b.not(LeafExpr::Register(sum));
        let cond = b.test(TestOp::Equal, LeafExpr::Register(not), LeafExpr::from(0u8));
        b.store_cell(LeafExpr::Register(index), LeafExpr::Register(sum));
        b.check_bounds(LeafExpr::Register(index), LeafExpr::Register(index));
        b.output(LeafExpr::Register(sum));
        let read = b.input(LeafExpr::Register(sum));
        b.nop();
        let next = b.add_block();
        b.branch(LeafExpr::Register(cond), TargetBlock::from(next), TargetBlock::from(entry));
        b.select_block(next);
        let p = b.add_parameter(Type::I64);
        b.jump(TargetBlock::from((next, LeafExpr::Register(p))));
        assert_eq!((index, cell, sum, not, cond, read, p).6, RegisterID(6));
    }
    let types: Vec<Type> = m.registers.iter().map(|r| r.register_type()).collect();
    assert_eq!(
        types,
        vec![Type::I64, Type::I8, Type::I8, Type::I8, Type::I1, Type::I8, Type::I64]
    );
    assert_eq!(
        m.block(BlockID(0)).unwrap().body(),
        &[
            Instruction::Assign(RegisterID(0), Expr::Leaf(LeafExpr::Int(ConstInt::U64(0)))),
            Instruction::LoadCell(RegisterID(1), reg(0)),
            Instruction::Assign(
                RegisterID(2),
                Expr::Binary(reg(1), BinaryOp::Add, LeafExpr::Int(ConstInt::I8(1)))
            ),
            Instruction::Assign(RegisterID(3), Expr::Unary(reg(2), UnaryOp::Not)),
            Instruction::Assign(
                RegisterID(4),
                Expr::Test(reg(3), TestOp::Equal, LeafExpr::Int(ConstInt::U8(0)))
            ),
            Instruction::StoreCell(reg(0), reg(2)),
            Instruction::BoundsCheck(reg(0), reg(0)),
            Instruction::Output(reg(2)),
            Instruction::Input(RegisterID(5), reg(2)),
            Instruction::Nop,
            Instruction::Branch(
                reg(4),
                TargetBlock::new(BlockID(1), vec![]),
                TargetBlock::new(BlockID(0), vec![])
            ),
        ]
    );
    assert_eq!(m.block(BlockID(1)).unwrap().parameters(), &[RegisterID(6)]);
    assert_eq!(
        m.block(BlockID(1)).unwrap().body(),
        &[Instruction::Jump(TargetBlock::new(BlockID(1), vec![reg(6)]))]
    );
}

#[test]
fn builder_names_every_binary_operation() {
    let mut m = Module::new();
    let entry = m.add_block();
    {
        let mut b = Builder::new(&mut m, entry);
        let x = LeafExpr::from(6u8);
        let y = LeafExpr::from(3u8);
        b.sub(x, y);
        b.mul(x, y);
        b.udiv(x, y);
        b.idiv(x, y);
        b.umod(x, y);
        b.imod(x, y);
        b.and(x, y);
        b.or(x, y);
        b.xor(x, y);
        b.neg(x);
        b.unop(UnaryOp::Not, x);
        b.binop(BinaryOp::Add, x, y);
        b.add_register(Type::I1);
    }
    let ops: Vec<Expr> = m
        .block(BlockID(0))
        .unwrap()
        .body()
        .iter()
        .map(|i| match i {
            Instruction::Assign(_, e) => *e,
            _ => unreachable!(),
        })
        .collect();
    let x = LeafExpr::Int(ConstInt::U8(6));
    let y = LeafExpr::Int(ConstInt::U8(3));
    assert_eq!(
        ops,
        vec![
            Expr::Binary(x, BinaryOp::Sub, y),
            Expr::Binary(x, BinaryOp::Mul, y),
            Expr::Binary(x, BinaryOp::UDiv, y),
            Expr::Binary(x, BinaryOp::IDiv, y),
            Expr::Binary(x, BinaryOp::UMod, y),
            Expr::Binary(x, BinaryOp::IMod, y),
            Expr::Binary(x, BinaryOp::And, y),
            Expr::Binary(x, BinaryOp::Or, y),
            Expr::Binary(x, BinaryOp::Xor, y),
            Expr::Unary(x, UnaryOp::Neg),
            Expr::Unary(x, UnaryOp::Not),
            Expr::Binary(x, BinaryOp::Add, y),
        ]
    );
    assert_eq!(m.registers.len(), 13);
}

#[test]
fn expr_type_is_the_width_of_the_operand() {
    let mut m = Module::new();
    m.add_register(Type::I64);
    assert_eq!(reg(0).expr_type(&m), Type::I64);
    assert_eq!(LeafExpr::from(true).expr_type(&m), Type::I1);
    assert_eq!(LeafExpr::from(1i8).expr_type(&m), Type::I8);
}

#[test]
fn common_subexpressions_become_copies_of_the_first() {
    let sum = Expr::Binary(reg(0), BinaryOp::Add, reg(1));
    let mut m = module_with(
        vec![
            Instruction::Assign(RegisterID(2), sum),
            Instruction::Assign(RegisterID(3), Expr::Leaf(reg(0))),
            Instruction::Assign(RegisterID(4), sum),
            Instruction::Assign(RegisterID(5), Expr::Leaf(reg(0))),
            Instruction::Assign(RegisterID(6), sum),
        ],
        &[Type::I8; 7],
    );
    assert!(local_cse(&mut m));
    assert_eq!(
        m.block(BlockID(0)).unwrap().body(),
        &[
            Instruction::Assign(RegisterID(2), sum),
            Instruction::Assign(RegisterID(3), Expr::Leaf(reg(0))),
            Instruction::Assign(RegisterID(4), Expr::Leaf(reg(2))),
            Instruction::Assign(RegisterID(5), Expr::Leaf(reg(0))),
            Instruction::Assign(RegisterID(6), Expr::Leaf(reg(2))),
        ]
    );
    assert!(!local_cse(&mut m));
}

#[test]
fn common_subexpressions_are_local_to_a_block() {
    let sum = Expr::Binary(reg(0), BinaryOp::Add, reg(1));
    let mut m = module_with(vec![Instruction::Assign(RegisterID(2), sum)], &[Type::I8; 4]);
    let second = m.add_block();
    m.block_mut(second).unwrap().add_instruction(Instruction::Assign(RegisterID(3), sum));
    assert!(!local_cse(&mut m));
    assert_eq!(
        m.block(second).unwrap().body(),
        &[Instruction::Assign(RegisterID(3), sum)]
    );
}

#[test]
fn products_with_one_become_the_other_operand() {
    let one = LeafExpr::Int(ConstInt::I8(1));
    let mut m = module_with(
        vec![
            Instruction::Assign(RegisterID(1), Expr::Binary(reg(0), BinaryOp::Mul, one)),
            Instruction::Assign(RegisterID(2), Expr::Binary(one, BinaryOp::Mul, reg(0))),
            Instruction::Assign(RegisterID(3), Expr::Binary(reg(0), BinaryOp::Add, one)),
        ],
        &[Type::I8; 4],
    );
    assert!(remove_identity_muls(&mut m));
    assert_eq!(
        m.block(BlockID(0)).unwrap().body(),
        &[
            Instruction::Assign(RegisterID(1), Expr::Leaf(reg(0))),
            Instruction::Assign(RegisterID(2), Expr::Leaf(reg(0))),
            Instruction::Assign(RegisterID(3), Expr::Binary(reg(0), BinaryOp::Add, one)),
        ]
    );
    assert!(!remove_identity_muls(&mut m));
}

#[test]
fn products_with_minus_one_become_negations() {
    let minus = LeafExpr::Int(ConstInt::U8(255));
    let mut m = module_with(
        vec![
            Instruction::Assign(RegisterID(1), Expr::Binary(reg(0), BinaryOp::Mul, minus)),
            Instruction::Assign(
                RegisterID(2),
                Expr::Binary(LeafExpr::Int(ConstInt::I8(-1)), BinaryOp::Mul, reg(0)),
            ),
            Instruction::Assign(
                RegisterID(3),
                Expr::Binary(LeafExpr::Int(ConstInt::Bool(false)), BinaryOp::Mul, reg(4)),
            ),
        ],
        &[Type::I8, Type::I8, Type::I8, Type::I1, Type::I1],
    );
    assert!(remove_negating_muls(&mut m));
    assert_eq!(
        m.block(BlockID(0)).unwrap().body(),
        &[
            Instruction::Assign(RegisterID(1), Expr::Unary(reg(0), UnaryOp::Neg)),
            Instruction::Assign(RegisterID(2), Expr::Unary(reg(0), UnaryOp::Neg)),
            Instruction::Assign(
                RegisterID(3),
                Expr::Binary(LeafExpr::Int(ConstInt::Bool(false)), BinaryOp::Mul, reg(4)),
            ),
        ]
    );
    assert!(!remove_negating_muls(&mut m));
}

#[test]
fn operations_on_constants_are_computed() {
    let two = LeafExpr::Int(ConstInt::U8(2));
    let zero = LeafExpr::Int(ConstInt::U8(0));
    let mut m = module_with(
        vec![
            Instruction::Assign(RegisterID(0), Expr::Binary(two, BinaryOp::Add, two)),
            Instruction::Assign(RegisterID(1), Expr::Binary(two, BinaryOp::UDiv, zero)),
            Instruction::Assign(RegisterID(2), Expr::Test(two, TestOp::NotEqual, zero)),
            Instruction::Assign(RegisterID(3), Expr::Leaf(two)),
            Instruction::Assign(RegisterID(4), Expr::Unary(two, UnaryOp::Neg)),
        ],
        &[Type::I8, Type::I8, Type::I1, Type::I8, Type::I8],
    );
    assert!(do_constant_operations(&mut m));
    assert_eq!(
        m.block(BlockID(0)).unwrap().body(),
        &[
            Instruction::Assign(RegisterID(0), Expr::Leaf(LeafExpr::Int(ConstInt::U8(4)))),
            Instruction::Assign(RegisterID(1), Expr::Binary(two, BinaryOp::UDiv, zero)),
            Instruction::Assign(RegisterID(2), Expr::Leaf(LeafExpr::Int(ConstInt::Bool(true)))),
            Instruction::Assign(RegisterID(3), Expr::Leaf(two)),
            Instruction::Assign(RegisterID(4), Expr::Leaf(LeafExpr::Int(ConstInt::U8(254)))),
        ]
    );
    assert!(!do_constant_operations(&mut m));
}

#[test]
fn single_operands_are_propagated_everywhere() {
    let five = LeafExpr::Int(ConstInt::U8(5));
    let mut m = module_with(
        vec![
            Instruction::Output(reg(1)),
            Instruction::Assign(RegisterID(0), Expr::Leaf(five)),
            Instruction::Assign(RegisterID(1), Expr::Leaf(reg(0))),
            Instruction::Jump(TargetBlock::new(BlockID(0), vec![reg(1), reg(2)])),
        ],
        &[Type::I8; 3],
    );
    assert!(propagate_leaf_assigns(&mut m));
    assert_eq!(
        m.block(BlockID(0)).unwrap().body(),
        &[
            Instruction::Output(reg(0)),
            Instruction::Assign(RegisterID(0), Expr::Leaf(five)),
            Instruction::Assign(RegisterID(1), Expr::Leaf(five)),
            Instruction::Jump(TargetBlock::new(BlockID(0), vec![reg(0), reg(2)])),
        ]
    );
    assert!(propagate_leaf_assigns(&mut m));
    assert_eq!(
        m.block(BlockID(0)).unwrap().body(),
        &[
            Instruction::Output(five),
            Instruction::Assign(RegisterID(0), Expr::Leaf(five)),
            Instruction::Assign(RegisterID(1), Expr::Leaf(five)),
            Instruction::Jump(TargetBlock::new(BlockID(0), vec![five, reg(2)])),
        ]
    );
    assert!(!propagate_leaf_assigns(&mut m));
}

#[test]
fn a_chain_of_copies_is_swept_away() {
    let seven = LeafExpr::Int(ConstInt::U8(7));
    let mut m = module_with(
        vec![
            Instruction::Assign(RegisterID(0), Expr::Leaf(seven)),
            Instruction::Assign(RegisterID(1), Expr::Leaf(reg(0))),
            Instruction::Assign(RegisterID(2), Expr::Leaf(reg(1))),
            Instruction::Assign(RegisterID(3), Expr::Leaf(reg(2))),
            Instruction::Output(reg(3)),
        ],
        &[Type::I8; 4],
    );
    optimize_module(&mut m);
    assert_eq!(m.block(BlockID(0)).unwrap().body(), &[Instruction::Output(seven)]);
    assert!(!propagate_leaf_assigns(&mut m));
    assert!(!remove_dead_assignments(&mut m));
}

#[test]
fn unread_assignments_are_emptied_and_swept_out() {
    let mut m = module_with(
        vec![
            Instruction::Assign(RegisterID(0), Expr::Leaf(LeafExpr::Int(ConstInt::U8(5)))),
            Instruction::Assign(RegisterID(1), Expr::Leaf(LeafExpr::Int(ConstInt::U8(6)))),
            Instruction::Input(RegisterID(2), reg(1)),
        ],
        &[Type::I8; 3],
    );
    assert!(remove_dead_assignments(&mut m));
    assert_eq!(
        m.block(BlockID(0)).unwrap().body(),
        &[
            Instruction::Nop,
            Instruction::Assign(RegisterID(1), Expr::Leaf(LeafExpr::Int(ConstInt::U8(6)))),
            Instruction::Input(RegisterID(2), reg(1)),
        ]
    );
    assert!(!remove_dead_assignments(&mut m));
    remove_nops(&mut m);
    assert_eq!(m.block(BlockID(0)).unwrap().body().len(), 2);
}

#[test]
fn optimize_module_reaches_a_fixpoint() {
    let one = LeafExpr::Int(ConstInt::U8(1));
    let mut m = module_with(
        vec![
            Instruction::Assign(RegisterID(0), Expr::Leaf(LeafExpr::Int(ConstInt::U8(20)))),
            Instruction::Assign(RegisterID(1), Expr::Binary(reg(0), BinaryOp::Mul, one)),
            Instruction::Assign(RegisterID(2), Expr::Binary(reg(1), BinaryOp::Add, reg(1))),
            Instruction::Assign(RegisterID(3), Expr::Binary(reg(1), BinaryOp::Add, reg(1))),
            Instruction::Output(reg(3)),
        ],
        &[Type::I8; 4],
    );
    optimize_module(&mut m);
    assert_eq!(
        m.block(BlockID(0)).unwrap().body(),
        &[Instruction::Output(LeafExpr::Int(ConstInt::U8(40)))]
    );
    let (outcome, out) = run(&m, b"", 100);
    assert_eq!(outcome, Outcome::Halted);
    assert_eq!(out, vec![40]);
}

#[test]
fn interpreter_runs_a_counting_loop() {
    // entry: jump @1(3)    @1(%0): output %0; %1 = %0 - 1; %2 = %1 != 0; branch %2 @1(%1) @2
    let mut m = Module::new();
    let entry = m.add_block();
    let head = m.add_block();
    let end = m.add_block();
    m.set_entry_block(entry);
    let p = m.add_parameter(head, Type::I8);
    let next = m.add_register(Type::I8);
    let cond = m.add_register(Type::I1);
    m.block_mut(entry).unwrap().add_instruction(Instruction::Jump(TargetBlock::new(
        head,
        vec![LeafExpr::from(3u8)],
    )));
    let body = vec![
        Instruction::Output(LeafExpr::Register(p)),
        Instruction::Assign(
            next,
            Expr::Binary(LeafExpr::Register(p), BinaryOp::Sub, LeafExpr::from(1u8)),
        ),
        Instruction::Assign(
            cond,
            Expr::Test(LeafExpr::Register(next), TestOp::NotEqual, LeafExpr::from(0u8)),
        ),
        Instruction::Branch(
            LeafExpr::Register(cond),
            TargetBlock::new(head, vec![LeafExpr::Register(next)]),
            TargetBlock::new(end, vec![]),
        ),
    ];
    m.block_mut(head).unwrap().body = body;
    let (outcome, out) = run(&m, b"", 1000);
    assert_eq!(outcome, Outcome::Halted);
    assert_eq!(out, vec![3, 2, 1]);
    let (outcome, out) = run(&m, b"", 6);
    assert_eq!(outcome, Outcome::OutOfFuel);
    assert_eq!(out, vec![3, 2]);
}

#[test]
fn interpreter_grows_the_tape_with_zeros() {
    let m = module_with(
        vec![
            Instruction::BoundsCheck(LeafExpr::from(0u64), LeafExpr::from(4u64)),
            Instruction::StoreCell(LeafExpr::from(3u64), LeafExpr::from(9u8)),
            Instruction::BoundsCheck(LeafExpr::from(0u64), LeafExpr::from(2u64)),
            Instruction::LoadCell(RegisterID(0), LeafExpr::from(3u64)),
            Instruction::Output(reg(0)),
            Instruction::LoadCell(RegisterID(0), LeafExpr::from(1u64)),
            Instruction::Output(reg(0)),
        ],
        &[Type::I8],
    );
    let mut exec = Exec::new(Vec::new(), Vec::new());
    assert_eq!(exec.exec_program(&m, 100), Outcome::Halted);
    assert_eq!(exec.stdout(), &vec![9, 0]);
    assert_eq!(exec.cells(), &vec![0, 0, 0, 9]);
}

#[test]
fn interpreter_reads_input_and_falls_back_at_its_end() {
    let m = module_with(
        vec![
            Instruction::Input(RegisterID(0), LeafExpr::from(7u8)),
            Instruction::Output(reg(0)),
            Instruction::Input(RegisterID(0), reg(0)),
            Instruction::Output(reg(0)),
            Instruction::Input(RegisterID(0), LeafExpr::from(7u8)),
            Instruction::Output(reg(0)),
        ],
        &[Type::I8],
    );
    assert_eq!(run(&m, b"ab", 100), (Outcome::Halted, vec![b'a', b'b', 7]));
    assert_eq!(run(&m, b"", 100), (Outcome::Halted, vec![7, 7, 7]));
}

#[test]
fn interpreter_waits_for_input_that_may_come() {
    let m = module_with(
        vec![
            Instruction::Output(LeafExpr::from(1u8)),
            Instruction::Input(RegisterID(0), LeafExpr::from(7u8)),
            Instruction::Output(reg(0)),
        ],
        &[Type::I8],
    );
    let mut exec = Exec::new(Vec::new(), Vec::new());
    exec.set_input_open(true);
    assert_eq!(exec.exec_program(&m, 100), Outcome::NeedInput);
    assert_eq!(exec.take_output(), vec![1]);
    assert_eq!(exec.resume(&m, 100), Outcome::NeedInput);
    exec.feed(b'x');
    assert_eq!(exec.resume(&m, 100), Outcome::Halted);
    assert_eq!(exec.take_output(), vec![b'x']);
    let mut closed = Exec::new(Vec::new(), Vec::new());
    closed.set_input_open(true);
    assert_eq!(closed.exec_program(&m, 100), Outcome::NeedInput);
    closed.set_input_open(false);
    assert_eq!(closed.resume(&m, 100), Outcome::Halted);
    assert_eq!(closed.stdout(), &vec![1, 7]);
}

#[test]
fn interpreter_reports_faults() {
    let load = |index: LeafExpr| {
        module_with(vec![Instruction::LoadCell(RegisterID(0), index)], &[Type::I8])
    };
    assert_eq!(run(&load(LeafExpr::from(0u64)), b"", 10).0, Outcome::Fault(Fault::OutOfBounds));
    assert_eq!(run(&load(LeafExpr::from(0u8)), b"", 10).0, Outcome::Fault(Fault::WrongType));
    assert_eq!(run(&load(reg(0)), b"", 10).0, Outcome::Fault(Fault::WrongType));
    assert_eq!(run(&load(reg(5)), b"", 10).0, Outcome::Fault(Fault::NoSuchRegister));
    let div = module_with(
        vec![Instruction::Assign(
            RegisterID(0),
            Expr::Binary(LeafExpr::from(1u8), BinaryOp::UDiv, LeafExpr::from(0u8)),
        )],
        &[Type::I8],
    );
    assert_eq!(run(&div, b"", 10).0, Outcome::Fault(Fault::DivisionByZero));
    let mixed = module_with(
        vec![Instruction::Assign(
            RegisterID(0),
            Expr::Binary(LeafExpr::from(1u8), BinaryOp::Add, LeafExpr::from(0u64)),
        )],
        &[Type::I8],
    );
    assert_eq!(run(&mixed, b"", 10).0, Outcome::Fault(Fault::WrongType));
    let jump = module_with(vec![Instruction::Jump(TargetBlock::new(BlockID(9), vec![]))], &[]);
    assert_eq!(run(&jump, b"", 10).0, Outcome::Fault(Fault::NoSuchBlock));
    let branch = module_with(
        vec![Instruction::Branch(
            LeafExpr::from(1u8),
            TargetBlock::new(BlockID(0), vec![]),
            TargetBlock::new(BlockID(0), vec![]),
        )],
        &[],
    );
    assert_eq!(run(&branch, b"", 10).0, Outcome::Fault(Fault::WrongType));
    assert_eq!(run(&Module::new(), b"", 10).0, Outcome::Fault(Fault::NoEntry));
    let output = module_with(vec![Instruction::Output(LeafExpr::from(1u64))], &[]);
    assert_eq!(run(&output, b"", 10).0, Outcome::Fault(Fault::WrongType));
}

#[test]
fn interpreter_halts_at_the_end_of_a_block() {
    let m = module_with(vec![Instruction::Nop, Instruction::Nop], &[]);
    assert_eq!(run(&m, b"", 2).0, Outcome::OutOfFuel);
    assert_eq!(run(&m, b"", 3).0, Outcome::Halted);
    assert_eq!(run(&m, b"", 0).0, Outcome::OutOfFuel);
}

#[test]
fn populate_used_is_reflected_by_dead_assignment_removal() {
    // A set of used registers is not public; what it holds shows in what stays.
    let used: HashSet<usize> = [1usize].into_iter().collect();
    let mut m = module_with(
        vec![
            Instruction::Assign(RegisterID(0), Expr::Leaf(reg(1))),
            Instruction::Assign(RegisterID(1), Expr::Leaf(reg(1))),
        ],
        &[Type::I8; 2],
    );
    assert!(remove_dead_assignments(&mut m));
    let kept: HashSet<usize> = m
        .block(BlockID(0))
        .unwrap()
        .body()
        .iter()
        .filter_map(|i| match i {
            Instruction::Assign(t, _) => Some(t.0),
            _ => None,
        })
        .collect();
    assert_eq!(kept, used);
}

#[test]
fn printer_writes_blocks_and_instructions() {
    let mut m = Module::new();
    let entry = m.add_block();
    let next = m.add_block();
    m.set_entry_block(entry);
    {
        let mut b = Builder::new(&mut m, entry);
        let index = b.set(LeafExpr::from(0u64));
        let end = b.add(LeafExpr::Register(index), LeafExpr::from(1u64));
        b.check_bounds(LeafExpr::Register(index), LeafExpr::Register(end));
        let cell = b.load_cell(LeafExpr::Register(index));
        let neg = b.neg(LeafExpr::Register(cell));
        let read = b.input(LeafExpr::Register(neg));
        b.output(LeafExpr::Register(read));
        b.store_cell(LeafExpr::Register(index), LeafExpr::from(-1i8));
        let cond = b.test(TestOp::NotEqual, LeafExpr::Register(read), LeafExpr::from(0i8));
        b.nop();
        b.branch(
            LeafExpr::Register(cond),
            TargetBlock::from((next, LeafExpr::Register(index))),
            TargetBlock::from(entry),
        );
        b.select_block(next);
        let p = b.add_parameter(Type::I64);
        let q = b.add_parameter(Type::I1);
        b.jump(TargetBlock::new(next, vec![LeafExpr::Register(p), LeafExpr::Register(q)]));
    }
    let mut printer = Printer::new(String::new());
    printer.print_module(&m);
    let expected = "\
@0:
\t%0 = i64 0
\t%1 = add i64 %0, 1
\tboundscheck(%0, %1)
\t%2 = load(%0)
\t%3 = neg i8 %2
\t%4 = eof ? %3 : stdin
\tstdout << %4
\tstore(%0, -1)
\t%5 = tne i8 %4, 0
\tnop
\tbranch %5
\t  @1(%0)
\t  @0
@1(i64 %6, i1 %7):
\tjump @1(%6, %7)
";
    assert_eq!(printer.out, expected);
}

#[test]
fn one_more_sweep_changes_nothing() {
    let one = LeafExpr::Int(ConstInt::U8(1));
    let mut m = module_with(
        vec![
            Instruction::Nop,
            Instruction::Input(RegisterID(0), one),
            Instruction::Assign(RegisterID(1), Expr::Binary(reg(0), BinaryOp::Mul, one)),
            Instruction::Assign(RegisterID(2), Expr::Binary(reg(1), BinaryOp::Add, reg(1))),
            Instruction::Assign(RegisterID(3), Expr::Binary(reg(1), BinaryOp::Add, reg(1))),
            Instruction::Assign(RegisterID(4), Expr::Leaf(reg(3))),
            Instruction::Output(reg(4)),
        ],
        &[Type::I8; 5],
    );
    optimize_module(&mut m);
    let settled: Vec<Instruction> = m.block(BlockID(0)).unwrap().body().to_vec();
    assert_eq!(
        settled,
        vec![
            Instruction::Input(RegisterID(0), one),
            Instruction::Assign(RegisterID(2), Expr::Binary(reg(0), BinaryOp::Add, reg(0))),
            Instruction::Output(reg(2)),
        ]
    );
    assert!(!local_cse(&mut m));
    assert!(!remove_identity_muls(&mut m));
    assert!(!remove_negating_muls(&mut m));
    assert!(!do_constant_operations(&mut m));
    assert!(!propagate_leaf_assigns(&mut m));
    assert!(!remove_dead_assignments(&mut m));
    remove_nops(&mut m);
    assert_eq!(m.block(BlockID(0)).unwrap().body(), &settled[..]);
    let (outcome, out) = run(&m, b"\x15", 100);
    assert_eq!(outcome, Outcome::Halted);
    assert_eq!(out, vec![42]);
}

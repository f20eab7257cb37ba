use vstd::prelude::*;
use super::block::{BlockID, BlockView};
use super::instruction::{BinaryOp, Expr, Instruction, LeafExpr, Op, TargetBlock, TestOp, UnaryOp};
use super::register::RegisterID;
use super::types::Type;
use super::{Module, ModuleView};

verus! {

impl ModuleView {
    /// The module with one instruction more at the end of a block.
    pub open spec fn with_instruction(self, block: int, op: Op) -> ModuleView {
        self.with_block_at(
            block,
            BlockView { body: self.blocks[block].body.push(op), ..self.blocks[block] },
        )
    }

    /// The register that the next call of `add_register` gives.
    pub open spec fn next_register(self) -> RegisterID {
        RegisterID(self.registers.len() as usize)
    }

    /// The module with an instruction more that writes a new register of the
    /// given type.
    pub open spec fn defining(self, block: int, reg_type: Type, op: Op) -> ModuleView {
        self.with_register(reg_type).with_instruction(block, op)
    }
}

/// Appends instructions to one block of a module at a time.
pub struct Builder<'a> {
    pub module: &'a mut Module,
    pub block: BlockID,
}

impl<'a> Builder<'a> {
    /// The module as the builder has made it so far.
    pub open spec fn now(&self) -> ModuleView {
        self.module@
    }

    /// The selected block is one of the module.
    pub open spec fn ready(&self) -> bool {
        self.block.0 < self.now().blocks.len()
    }

    pub fn new(module: &'a mut Module, block: BlockID) -> (r: Self)
        ensures
            r.now() == old(module)@,
            r.block == block,
            *final(r.module) == *final(module),
    {
        Self { module, block }
    }

    pub fn add_block(&mut self) -> (id: BlockID)
        ensures
            id == BlockID(old(self).now().blocks.len() as usize),
            final(self).now() == old(self).now().with_block(),
            final(self).block == old(self).block,
            *final(final(self).module) == *final(old(self).module),
    {
        self.module.add_block()
    }

    pub fn add_register(&mut self, reg_type: Type) -> (id: RegisterID)
        ensures
            id == old(self).now().next_register(),
            final(self).now() == old(self).now().with_register(reg_type),
            final(self).block == old(self).block,
            *final(final(self).module) == *final(old(self).module),
    {
        self.module.add_register(reg_type)
    }

    /// Adds a parameter of the given type to the selected block.
    pub fn add_parameter(&mut self, param_type: Type) -> (id: RegisterID)
        requires
            old(self).ready(),
        ensures
            id == old(self).now().next_register(),
            final(self).now() == old(self).now().with_register(param_type).with_parameter(
                old(self).block.0 as int,
                id,
            ),
            final(self).block == old(self).block,
            *final(final(self).module) == *final(old(self).module),
    {
        self.module.add_parameter(self.block, param_type)
    }

    pub fn select_block(&mut self, block: BlockID)
        ensures
            final(self).now() == old(self).now(),
            final(self).block == block,
            *final(final(self).module) == *final(old(self).module),
    {
        self.block = block;
    }

    fn push_instruction(&mut self, i: Instruction)
        requires
            old(self).ready(),
        ensures
            final(self).now() == old(self).now().with_instruction(old(self).block.0 as int, i@),
            final(self).block == old(self).block,
            *final(final(self).module) == *final(old(self).module),
    {
        let ghost before = self.module@;
        self.module.blocks[self.block.0].add_instruction(i);
        assert(self.module@.blocks =~= before.with_instruction(self.block.0 as int, i@).blocks);
    }

    pub fn nop(&mut self)
        requires
            old(self).ready(),
        ensures
            final(self).now() == old(self).now().with_instruction(old(self).block.0 as int, Op::Nop),
            final(self).block == old(self).block,
            *final(final(self).module) == *final(old(self).module),
    {
        self.push_instruction(Instruction::Nop);
    }

    /// Reads the cell at `index` into a new register.
    pub fn load_cell(&mut self, index: LeafExpr) -> (target: RegisterID)
        requires
            old(self).ready(),
            index.known(old(self).now()),
            index.width(old(self).now()) == Type::I64,
        ensures
            target == old(self).now().next_register(),
            final(self).now() == old(self).now().defining(
                old(self).block.0 as int,
                Type::I8,
                Op::LoadCell(target, index),
            ),
            final(self).block == old(self).block,
            *final(final(self).module) == *final(old(self).module),
    {
        let target = self.add_register(Type::I8);
        self.push_instruction(Instruction::LoadCell(target, index));
        target
    }

    /// Writes `value` to the cell at `index`.
    pub fn store_cell(&mut self, index: LeafExpr, value: LeafExpr)
        requires
            old(self).ready(),
            index.known(old(self).now()),
            value.known(old(self).now()),
            index.width(old(self).now()) == Type::I64,
            value.width(old(self).now()) == Type::I8,
        ensures
            final(self).now() == old(self).now().with_instruction(
                old(self).block.0 as int,
                Op::StoreCell(index, value),
            ),
            final(self).block == old(self).block,
            *final(final(self).module) == *final(old(self).module),
    {
        self.push_instruction(Instruction::StoreCell(index, value));
    }

    /// Makes the tape reach to the cell in front of `end`.
    pub fn check_bounds(&mut self, start: LeafExpr, end: LeafExpr)
        requires
            old(self).ready(),
            start.known(old(self).now()),
            end.known(old(self).now()),
            start.width(old(self).now()) == Type::I64,
            end.width(old(self).now()) == Type::I64,
        ensures
            final(self).now() == old(self).now().with_instruction(
                old(self).block.0 as int,
                Op::BoundsCheck(start, end),
            ),
            final(self).block == old(self).block,
            *final(final(self).module) == *final(old(self).module),
    {
        self.push_instruction(Instruction::BoundsCheck(start, end));
    }

    /// Copies an operand into a new register of its width.
    pub fn set(&mut self, value: LeafExpr) -> (target: RegisterID)
        requires
            old(self).ready(),
            value.known(old(self).now()),
        ensures
            target == old(self).now().next_register(),
            final(self).now() == old(self).now().defining(
                old(self).block.0 as int,
                value.width(old(self).now()),
                Op::Assign(target, Expr::Leaf(value)),
            ),
            final(self).block == old(self).block,
            *final(final(self).module) == *final(old(self).module),
    {
        let value_type = value.expr_type(self.module);
        let target = self.add_register(value_type);
        self.push_instruction(Instruction::Assign(target, Expr::Leaf(value)));
        target
    }

    /// Puts the result of a binary operation on two operands of one width
    /// into a new register of that width.
    pub fn binop(&mut self, op: BinaryOp, a: LeafExpr, b: LeafExpr) -> (target: RegisterID)
        requires
            old(self).ready(),
            a.known(old(self).now()),
            b.known(old(self).now()),
            a.width(old(self).now()) == b.width(old(self).now()),
        ensures
            target == old(self).now().next_register(),
            final(self).now() == old(self).now().defining(
                old(self).block.0 as int,
                a.width(old(self).now()),
                Op::Assign(target, Expr::Binary(a, op, b)),
            ),
            final(self).block == old(self).block,
            *final(final(self).module) == *final(old(self).module),
    {
        let at = a.expr_type(self.module);
        let target = self.add_register(at);
        self.push_instruction(Instruction::Assign(target, Expr::Binary(a, op, b)));
        target
    }

    pub fn add(&mut self, a: LeafExpr, b: LeafExpr) -> (target: RegisterID)
        requires
            old(self).ready(),
            a.known(old(self).now()),
            b.known(old(self).now()),
            a.width(old(self).now()) == b.width(old(self).now()),
        ensures
            target == old(self).now().next_register(),
            final(self).now() == old(self).now().defining(
                old(self).block.0 as int,
                a.width(old(self).now()),
                Op::Assign(target, Expr::Binary(a, BinaryOp::Add, b)),
            ),
            final(self).block == old(self).block,
            *final(final(self).module) == *final(old(self).module),
    {
        self.binop(BinaryOp::Add, a, b)
    }

    pub fn sub(&mut self, a: LeafExpr, b: LeafExpr) -> (target: RegisterID)
        requires
            old(self).ready(),
            a.known(old(self).now()),
            b.known(old(self).now()),
            a.width(old(self).now()) == b.width(old(self).now()),
        ensures
            target == old(self).now().next_register(),
            final(self).now() == old(self).now().defining(
                old(self).block.0 as int,
                a.width(old(self).now()),
                Op::Assign(target, Expr::Binary(a, BinaryOp::Sub, b)),
            ),
            final(self).block == old(self).block,
            *final(final(self).module) == *final(old(self).module),
    {
        self.binop(BinaryOp::Sub, a, b)
    }

    pub fn mul(&mut self, a: LeafExpr, b: LeafExpr) -> (target: RegisterID)
        requires
            old(self).ready(),
            a.known(old(self).now()),
            b.known(old(self).now()),
            a.width(old(self).now()) == b.width(old(self).now()),
        ensures
            target == old(self).now().next_register(),
            final(self).now() == old(self).now().defining(
                old(self).block.0 as int,
                a.width(old(self).now()),
                Op::Assign(target, Expr::Binary(a, BinaryOp::Mul, b)),
            ),
            final(self).block == old(self).block,
            *final(final(self).module) == *final(old(self).module),
    {
        self.binop(BinaryOp::Mul, a, b)
    }

    pub fn udiv(&mut self, a: LeafExpr, b: LeafExpr) -> (target: RegisterID)
        requires
            old(self).ready(),
            a.known(old(self).now()),
            b.known(old(self).now()),
            a.width(old(self).now()) == b.width(old(self).now()),
        ensures
            target == old(self).now().next_register(),
            final(self).now() == old(self).now().defining(
                old(self).block.0 as int,
                a.width(old(self).now()),
                Op::Assign(target, Expr::Binary(a, BinaryOp::UDiv, b)),
            ),
            final(self).block == old(self).block,
            *final(final(self).module) == *final(old(self).module),
    {
        self.binop(BinaryOp::UDiv, a, b)
    }

    pub fn idiv(&mut self, a: LeafExpr, b: LeafExpr) -> (target: RegisterID)
        requires
            old(self).ready(),
            a.known(old(self).now()),
            b.known(old(self).now()),
            a.width(old(self).now()) == b.width(old(self).now()),
        ensures
            target == old(self).now().next_register(),
            final(self).now() == old(self).now().defining(
                old(self).block.0 as int,
                a.width(old(self).now()),
                Op::Assign(target, Expr::Binary(a, BinaryOp::IDiv, b)),
            ),
            final(self).block == old(self).block,
            *final(final(self).module) == *final(old(self).module),
    {
        self.binop(BinaryOp::IDiv, a, b)
    }

    pub fn umod(&mut self, a: LeafExpr, b: LeafExpr) -> (target: RegisterID)
        requires
            old(self).ready(),
            a.known(old(self).now()),
            b.known(old(self).now()),
            a.width(old(self).now()) == b.width(old(self).now()),
        ensures
            target == old(self).now().next_register(),
            final(self).now() == old(self).now().defining(
                old(self).block.0 as int,
                a.width(old(self).now()),
                Op::Assign(target, Expr::Binary(a, BinaryOp::UMod, b)),
            ),
            final(self).block == old(self).block,
            *final(final(self).module) == *final(old(self).module),
    {
        self.binop(BinaryOp::UMod, a, b)
    }

    pub fn imod(&mut self, a: LeafExpr, b: LeafExpr) -> (target: RegisterID)
        requires
            old(self).ready(),
            a.known(old(self).now()),
            b.known(old(self).now()),
            a.width(old(self).now()) == b.width(old(self).now()),
        ensures
            target == old(self).now().next_register(),
            final(self).now() == old(self).now().defining(
                old(self).block.0 as int,
                a.width(old(self).now()),
                Op::Assign(target, Expr::Binary(a, BinaryOp::IMod, b)),
            ),
            final(self).block == old(self).block,
            *final(final(self).module) == *final(old(self).module),
    {
        self.binop(BinaryOp::IMod, a, b)
    }

    pub fn and(&mut self, a: LeafExpr, b: LeafExpr) -> (target: RegisterID)
        requires
            old(self).ready(),
            a.known(old(self).now()),
            b.known(old(self).now()),
            a.width(old(self).now()) == b.width(old(self).now()),
        ensures
            target == old(self).now().next_register(),
            final(self).now() == old(self).now().defining(
                old(self).block.0 as int,
                a.width(old(self).now()),
                Op::Assign(target, Expr::Binary(a, BinaryOp::And, b)),
            ),
            final(self).block == old(self).block,
            *final(final(self).module) == *final(old(self).module),
    {
        self.binop(BinaryOp::And, a, b)
    }

    pub fn or(&mut self, a: LeafExpr, b: LeafExpr) -> (target: RegisterID)
        requires
            old(self).ready(),
            a.known(old(self).now()),
            b.known(old(self).now()),
            a.width(old(self).now()) == b.width(old(self).now()),
        ensures
            target == old(self).now().next_register(),
            final(self).now() == old(self).now().defining(
                old(self).block.0 as int,
                a.width(old(self).now()),
                Op::Assign(target, Expr::Binary(a, BinaryOp::Or, b)),
            ),
            final(self).block == old(self).block,
            *final(final(self).module) == *final(old(self).module),
    {
        self.binop(BinaryOp::Or, a, b)
    }

    pub fn xor(&mut self, a: LeafExpr, b: LeafExpr) -> (target: RegisterID)
        requires
            old(self).ready(),
            a.known(old(self).now()),
            b.known(old(self).now()),
            a.width(old(self).now()) == b.width(old(self).now()),
        ensures
            target == old(self).now().next_register(),
            final(self).now() == old(self).now().defining(
                old(self).block.0 as int,
                a.width(old(self).now()),
                Op::Assign(target, Expr::Binary(a, BinaryOp::Xor, b)),
            ),
            final(self).block == old(self).block,
            *final(final(self).module) == *final(old(self).module),
    {
        self.binop(BinaryOp::Xor, a, b)
    }

    /// Puts the result of a unary operation into a new register of the
    /// operand's width.
    pub fn unop(&mut self, op: UnaryOp, a: LeafExpr) -> (target: RegisterID)
        requires
            old(self).ready(),
            a.known(old(self).now()),
        ensures
            target == old(self).now().next_register(),
            final(self).now() == old(self).now().defining(
                old(self).block.0 as int,
                a.width(old(self).now()),
                Op::Assign(target, Expr::Unary(a, op)),
            ),
            final(self).block == old(self).block,
            *final(final(self).module) == *final(old(self).module),
    {
        let at = a.expr_type(self.module);
        let target = self.add_register(at);
        self.push_instruction(Instruction::Assign(target, Expr::Unary(a, op)));
        target
    }

    pub fn not(&mut self, a: LeafExpr) -> (target: RegisterID)
        requires
            old(self).ready(),
            a.known(old(self).now()),
        ensures
            target == old(self).now().next_register(),
            final(self).now() == old(self).now().defining(
                old(self).block.0 as int,
                a.width(old(self).now()),
                Op::Assign(target, Expr::Unary(a, UnaryOp::Not)),
            ),
            final(self).block == old(self).block,
            *final(final(self).module) == *final(old(self).module),
    {
        self.unop(UnaryOp::Not, a)
    }

    pub fn neg(&mut self, a: LeafExpr) -> (target: RegisterID)
        requires
            old(self).ready(),
            a.known(old(self).now()),
        ensures
            target == old(self).now().next_register(),
            final(self).now() == old(self).now().defining(
                old(self).block.0 as int,
                a.width(old(self).now()),
                Op::Assign(target, Expr::Unary(a, UnaryOp::Neg)),
            ),
            final(self).block == old(self).block,
            *final(final(self).module) == *final(old(self).module),
    {
        self.unop(UnaryOp::Neg, a)
    }

    /// Puts the result of a comparison of two operands of one width into a
    /// new register of one bit.
    pub fn test(&mut self, op: TestOp, a: LeafExpr, b: LeafExpr) -> (target: RegisterID)
        requires
            old(self).ready(),
            a.known(old(self).now()),
            b.known(old(self).now()),
            a.width(old(self).now()) == b.width(old(self).now()),
        ensures
            target == old(self).now().next_register(),
            final(self).now() == old(self).now().defining(
                old(self).block.0 as int,
                Type::I1,
                Op::Assign(target, Expr::Test(a, op, b)),
            ),
            final(self).block == old(self).block,
            *final(final(self).module) == *final(old(self).module),
    {
        let target = self.add_register(Type::I1);
        self.push_instruction(Instruction::Assign(target, Expr::Test(a, op, b)));
        target
    }

    /// Writes out the byte `value`.
    pub fn output(&mut self, value: LeafExpr)
        requires
            old(self).ready(),
            value.known(old(self).now()),
            value.width(old(self).now()) == Type::I8,
        ensures
            final(self).now() == old(self).now().with_instruction(
                old(self).block.0 as int,
                Op::Output(value),
            ),
            final(self).block == old(self).block,
            *final(final(self).module) == *final(old(self).module),
    {
        self.push_instruction(Instruction::Output(value));
    }

    /// Reads a byte into a new register; `default` is what it takes where
    /// the input is at its end.
    pub fn input(&mut self, default: LeafExpr) -> (target: RegisterID)
        requires
            old(self).ready(),
            default.known(old(self).now()),
            default.width(old(self).now()) == Type::I8,
        ensures
            target == old(self).now().next_register(),
            final(self).now() == old(self).now().defining(
                old(self).block.0 as int,
                Type::I8,
                Op::Input(target, default),
            ),
            final(self).block == old(self).block,
            *final(final(self).module) == *final(old(self).module),
    {
        let target = self.add_register(Type::I8);
        self.push_instruction(Instruction::Input(target, default));
        target
    }

    pub fn jump(&mut self, target: TargetBlock)
        requires
            old(self).ready(),
        ensures
            final(self).now() == old(self).now().with_instruction(
                old(self).block.0 as int,
                Op::Jump(target@),
            ),
            final(self).block == old(self).block,
            *final(final(self).module) == *final(old(self).module),
    {
        self.push_instruction(Instruction::Jump(target));
    }

    /// Ends the block with a branch on a condition of one bit.
    pub fn branch(&mut self, c: LeafExpr, then: TargetBlock, els: TargetBlock)
        requires
            old(self).ready(),
            c.known(old(self).now()),
            c.width(old(self).now()) == Type::I1,
        ensures
            final(self).now() == old(self).now().with_instruction(
                old(self).block.0 as int,
                Op::Branch(c, then@, els@),
            ),
            final(self).block == old(self).block,
            *final(final(self).module) == *final(old(self).module),
    {
        self.push_instruction(Instruction::Branch(c, then, els));
    }
}

} // verus!

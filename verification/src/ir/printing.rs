use vstd::prelude::*;
use vstd::string::*;
use super::block::{Block, BlockID, BlockView};
use super::instruction::{
    BinaryOp, ConstInt, Expr, Instruction, LeafExpr, Op, Target, TargetBlock, TestOp, UnaryOp,
};
use super::register::RegisterID;
use super::types::Type;
use super::{Module, ModuleView};
use crate::util::{integer_text, natural_text, push_integer, push_natural};

verus! {

pub open spec fn register_text(r: RegisterID) -> Seq<char> {
    "%"@ + natural_text(r.0 as nat)
}

pub open spec fn block_id_text(b: BlockID) -> Seq<char> {
    "@"@ + natural_text(b.0 as nat)
}

pub open spec fn type_text(t: Type) -> Seq<char> {
    match t {
        Type::I1 => "i1"@,
        Type::I8 => "i8"@,
        Type::I64 => "i64"@,
    }
}

pub open spec fn binary_op_text(op: BinaryOp) -> Seq<char> {
    match op {
        BinaryOp::Add => "add"@,
        BinaryOp::Sub => "sub"@,
        BinaryOp::Mul => "mul"@,
        BinaryOp::UDiv => "udiv"@,
        BinaryOp::IDiv => "idiv"@,
        BinaryOp::UMod => "umod"@,
        BinaryOp::IMod => "imod"@,
        BinaryOp::And => "and"@,
        BinaryOp::Or => "or"@,
        BinaryOp::Xor => "xor"@,
    }
}

pub open spec fn unary_op_text(op: UnaryOp) -> Seq<char> {
    match op {
        UnaryOp::Not => "not"@,
        UnaryOp::Neg => "neg"@,
    }
}

pub open spec fn test_op_text(op: TestOp) -> Seq<char> {
    match op {
        TestOp::Equal => "teq"@,
        TestOp::NotEqual => "tne"@,
    }
}

pub open spec fn const_text(c: ConstInt) -> Seq<char> {
    match c {
        ConstInt::Bool(v) => if v {
            "true"@
        } else {
            "false"@
        },
        ConstInt::U8(v) => natural_text(v as nat),
        ConstInt::I8(v) => integer_text(v as int),
        ConstInt::U64(v) => natural_text(v as nat),
        ConstInt::I64(v) => integer_text(v as int),
    }
}

pub open spec fn leaf_text(l: LeafExpr) -> Seq<char> {
    match l {
        LeafExpr::Register(r) => register_text(r),
        LeafExpr::Int(c) => const_text(c),
    }
}

/// The first `n` arguments, with commas between them.
pub open spec fn args_text(args: Seq<LeafExpr>, n: int) -> Seq<char>
    decreases n,
{
    if n <= 0 {
        Seq::empty()
    } else if n == 1 {
        leaf_text(args[0])
    } else {
        args_text(args, n - 1) + ", "@ + leaf_text(args[n - 1])
    }
}

/// An edge: the block, and its arguments in brackets where it has any.
pub open spec fn target_text(t: Target) -> Seq<char> {
    if t.args.len() == 0 {
        block_id_text(t.id)
    } else {
        block_id_text(t.id) + "("@ + args_text(t.args, t.args.len() as int) + ")"@
    }
}

/// A register with its type in front.
pub open spec fn typed_register_text(m: ModuleView, r: RegisterID) -> Seq<char> {
    type_text(m.registers[r.0 as int].register_type) + " "@ + register_text(r)
}

/// The first `n` parameters, with commas between them.
pub open spec fn params_text(m: ModuleView, params: Seq<RegisterID>, n: int) -> Seq<char>
    decreases n,
{
    if n <= 0 {
        Seq::empty()
    } else if n == 1 {
        typed_register_text(m, params[0])
    } else {
        params_text(m, params, n - 1) + ", "@ + typed_register_text(m, params[n - 1])
    }
}

/// An expression: the operation, the type of its first operand, the operands.
pub open spec fn expr_text(m: ModuleView, e: Expr) -> Seq<char> {
    match e {
        Expr::Leaf(l) => type_text(l.width(m)) + " "@ + leaf_text(l),
        Expr::Binary(a, op, b) => binary_op_text(op) + " "@ + type_text(a.width(m)) + " "@
            + leaf_text(a) + ", "@ + leaf_text(b),
        Expr::Unary(a, op) => unary_op_text(op) + " "@ + type_text(a.width(m)) + " "@ + leaf_text(
            a,
        ),
        Expr::Test(a, op, b) => test_op_text(op) + " "@ + type_text(a.width(m)) + " "@ + leaf_text(
            a,
        ) + ", "@ + leaf_text(b),
    }
}

/// The line of an instruction, behind a tab.
pub open spec fn op_text(m: ModuleView, op: Op) -> Seq<char> {
    "\t"@ + match op {
        Op::Nop => "nop\n"@,
        Op::LoadCell(target, index) => register_text(target) + " = load("@ + leaf_text(index)
            + ")\n"@,
        Op::StoreCell(index, value) => "store("@ + leaf_text(index) + ", "@ + leaf_text(value)
            + ")\n"@,
        Op::BoundsCheck(start, end) => "boundscheck("@ + leaf_text(start) + ", "@ + leaf_text(end)
            + ")\n"@,
        Op::Assign(target, e) => register_text(target) + " = "@ + expr_text(m, e) + "\n"@,
        Op::Output(value) => "stdout << "@ + leaf_text(value) + "\n"@,
        Op::Input(target, default) => register_text(target) + " = eof ? "@ + leaf_text(default)
            + " : stdin\n"@,
        Op::Jump(target) => "jump "@ + target_text(target) + "\n"@,
        Op::Branch(c, then, els) => "branch "@ + leaf_text(c) + "\n\t  "@ + target_text(then)
            + "\n\t  "@ + target_text(els) + "\n"@,
    }
}

/// The lines of the first `n` instructions.
pub open spec fn ops_text(m: ModuleView, body: Seq<Op>, n: int) -> Seq<char>
    decreases n,
{
    if n <= 0 {
        Seq::empty()
    } else {
        ops_text(m, body, n - 1) + op_text(m, body[n - 1])
    }
}

/// The head of a block: its place, and its parameters in brackets where it
/// has any.
pub open spec fn head_text(m: ModuleView, b: BlockView) -> Seq<char> {
    if b.parameters.len() == 0 {
        block_id_text(b.id) + ":\n"@
    } else {
        block_id_text(b.id) + "("@ + params_text(m, b.parameters, b.parameters.len() as int)
            + "):\n"@
    }
}

pub open spec fn block_text(m: ModuleView, b: BlockView) -> Seq<char> {
    head_text(m, b) + ops_text(m, b.body, b.body.len() as int)
}

/// The text of the first `n` blocks.
pub open spec fn blocks_text(m: ModuleView, n: int) -> Seq<char>
    decreases n,
{
    if n <= 0 {
        Seq::empty()
    } else {
        blocks_text(m, n - 1) + block_text(m, m.blocks[n - 1])
    }
}

/// The text of a module, block by block.
pub open spec fn module_text(m: ModuleView) -> Seq<char> {
    blocks_text(m, m.blocks.len() as int)
}

/// The first operand of the expression is a constant or a register of the module.
pub open spec fn expr_printable(m: ModuleView, e: Expr) -> bool {
    match e {
        Expr::Leaf(l) => l.known(m),
        Expr::Binary(a, _, _) => a.known(m),
        Expr::Unary(a, _) => a.known(m),
        Expr::Test(a, _, _) => a.known(m),
    }
}

/// Every register whose type is printed is a register of the module: the
/// parameters of the blocks, and the first operand of every assignment.
pub open spec fn printable(m: ModuleView) -> bool {
    &&& forall|b: int, i: int|
        0 <= b < m.blocks.len() && 0 <= i < m.blocks[b].parameters.len() ==> (#[trigger] m.blocks[b].parameters[i]).0
            < m.registers.len()
    &&& forall|b: int, i: int|
        0 <= b < m.blocks.len() && 0 <= i < m.blocks[b].body.len() ==> (
        #[trigger] m.blocks[b].body[i] matches Op::Assign(_, e) ==> expr_printable(m, e))
}

/// Writes modules as text.
pub struct Printer {
    pub out: String,
}

fn print_register(out: &mut String, r: RegisterID)
    ensures
        final(out)@ == old(out)@ + register_text(r),
{
    out.append("%");
    push_natural(out, r.0 as u128);
    assert(out@ =~= old(out)@ + register_text(r));
}

fn print_block_id(out: &mut String, b: BlockID)
    ensures
        final(out)@ == old(out)@ + block_id_text(b),
{
    out.append("@");
    push_natural(out, b.0 as u128);
    assert(out@ =~= old(out)@ + block_id_text(b));
}

fn print_type(out: &mut String, t: Type)
    ensures
        final(out)@ == old(out)@ + type_text(t),
{
    match t {
        Type::I1 => out.append("i1"),
        Type::I8 => out.append("i8"),
        Type::I64 => out.append("i64"),
    }
}

fn print_const(out: &mut String, c: ConstInt)
    ensures
        final(out)@ == old(out)@ + const_text(c),
{
    match c {
        ConstInt::Bool(v) => if v {
            out.append("true")
        } else {
            out.append("false")
        },
        ConstInt::U8(v) => push_natural(out, v as u128),
        ConstInt::I8(v) => push_integer(out, v as i128),
        ConstInt::U64(v) => push_natural(out, v as u128),
        ConstInt::I64(v) => push_integer(out, v as i128),
    }
}

fn print_leaf(out: &mut String, l: &LeafExpr)
    ensures
        final(out)@ == old(out)@ + leaf_text(*l),
{
    match l {
        LeafExpr::Register(r) => print_register(out, *r),
        LeafExpr::Int(c) => print_const(out, *c),
    }
}

fn print_target(out: &mut String, t: &TargetBlock)
    ensures
        final(out)@ == old(out)@ + target_text(t@),
{
    print_block_id(out, t.id);
    if t.args.len() > 0 {
        out.append("(");
        let ghost start = out@;
        print_leaf(out, &t.args[0]);
        let mut k: usize = 1;
        while k < t.args.len()
            invariant
                1 <= k <= t.args.len(),
                out@ == start + args_text(t@.args, k as int),
            decreases t.args.len() - k,
        {
            out.append(", ");
            print_leaf(out, &t.args[k]);
            assert(out@ =~= start + args_text(t@.args, k as int + 1));
            k += 1;
        }
        out.append(")");
        assert(out@ =~= old(out)@ + target_text(t@));
    }
}

impl Printer {
    pub fn new(out: String) -> (r: Self)
        ensures
            r.out == out,
    {
        Self { out }
    }

    /// Writes a module, block by block.
    pub fn print_module(&mut self, m: &Module)
        requires
            printable(m@),
        ensures
            final(self).out@ == old(self).out@ + module_text(m@),
    {
        let mut k: usize = 0;
        assert(self.out@ =~= old(self).out@ + blocks_text(m@, 0));
        while k < m.blocks.len()
            invariant
                k <= m.blocks.len(),
                printable(m@),
                self.out@ == old(self).out@ + blocks_text(m@, k as int),
            decreases m.blocks.len() - k,
        {
            assert(m@.blocks[k as int] == m.blocks[k as int]@);
            self.print_block(&m.blocks[k], m, Ghost(k as int));
            assert(self.out@ =~= old(self).out@ + blocks_text(m@, k as int + 1));
            k += 1;
        }
    }

    fn print_block(&mut self, b: &Block, m: &Module, Ghost(at): Ghost<int>)
        requires
            printable(m@),
            0 <= at < m@.blocks.len(),
            m@.blocks[at] == b@,
        ensures
            final(self).out@ == old(self).out@ + block_text(m@, b@),
    {
        print_block_id(&mut self.out, b.id);
        if b.parameters.len() > 0 {
            self.out.append("(");
            let ghost start = self.out@;
            assert(m@.blocks[at].parameters[0].0 < m@.registers.len());
            self.print_reg_with_type(b.parameters[0], m);
            let mut k: usize = 1;
            while k < b.parameters.len()
                invariant
                    1 <= k <= b.parameters.len(),
                    printable(m@),
                    0 <= at < m@.blocks.len(),
                    m@.blocks[at] == b@,
                    self.out@ == start + params_text(m@, b@.parameters, k as int),
                decreases b.parameters.len() - k,
            {
                self.out.append(", ");
                assert(m@.blocks[at].parameters[k as int].0 < m@.registers.len());
                self.print_reg_with_type(b.parameters[k], m);
                assert(self.out@ =~= start + params_text(m@, b@.parameters, k as int + 1));
                k += 1;
            }
            self.out.append("):\n");
            assert(self.out@ =~= old(self).out@ + head_text(m@, b@));
        } else {
            self.out.append(":\n");
            assert(self.out@ =~= old(self).out@ + head_text(m@, b@));
        }
        let ghost start = self.out@;
        let mut k: usize = 0;
        assert(self.out@ =~= start + ops_text(m@, b@.body, 0));
        while k < b.body.len()
            invariant
                k <= b.body.len(),
                printable(m@),
                0 <= at < m@.blocks.len(),
                m@.blocks[at] == b@,
                self.out@ == start + ops_text(m@, b@.body, k as int),
            decreases b.body.len() - k,
        {
            assert(b@.body[k as int] == b.body[k as int]@);
            assert(m@.blocks[at].body[k as int] == b.body[k as int]@);
            self.print_instruction(&b.body[k], m);
            assert(self.out@ =~= start + ops_text(m@, b@.body, k as int + 1));
            k += 1;
        }
        assert(self.out@ =~= old(self).out@ + block_text(m@, b@));
    }

    fn print_instruction(&mut self, i: &Instruction, m: &Module)
        requires
            i@ matches Op::Assign(_, e) ==> expr_printable(m@, e),
        ensures
            final(self).out@ == old(self).out@ + op_text(m@, i@),
    {
        self.out.append("\t");
        match i {
            Instruction::Nop => self.out.append("nop\n"),
            Instruction::LoadCell(target, index) => {
                print_register(&mut self.out, *target);
                self.out.append(" = load(");
                print_leaf(&mut self.out, index);
                self.out.append(")\n");
            },
            Instruction::StoreCell(index, value) => {
                self.out.append("store(");
                print_leaf(&mut self.out, index);
                self.out.append(", ");
                print_leaf(&mut self.out, value);
                self.out.append(")\n");
            },
            Instruction::BoundsCheck(index, bounds) => {
                self.out.append("boundscheck(");
                print_leaf(&mut self.out, index);
                self.out.append(", ");
                print_leaf(&mut self.out, bounds);
                self.out.append(")\n");
            },
            Instruction::Assign(target, value) => {
                print_register(&mut self.out, *target);
                self.out.append(" = ");
                match value {
                    Expr::Leaf(val) => self.print_expr_leaf(*val, m),
                    Expr::Binary(a, op, b) => self.print_bin_op(*a, *op, *b, m),
                    Expr::Unary(a, op) => self.print_un_op(*a, *op, m),
                    Expr::Test(a, op, b) => self.print_test_op(*a, *op, *b, m),
                }
                self.out.append("\n");
            },
            Instruction::Output(value) => {
                self.out.append("stdout << ");
                print_leaf(&mut self.out, value);
                self.out.append("\n");
            },
            Instruction::Input(target, default) => {
                print_register(&mut self.out, *target);
                self.out.append(" = eof ? ");
                print_leaf(&mut self.out, default);
                self.out.append(" : stdin\n");
            },
            Instruction::Jump(target) => {
                self.out.append("jump ");
                print_target(&mut self.out, target);
                self.out.append("\n");
            },
            Instruction::Branch(condition, then, els) => {
                self.out.append("branch ");
                print_leaf(&mut self.out, condition);
                self.out.append("\n\t  ");
                print_target(&mut self.out, then);
                self.out.append("\n\t  ");
                print_target(&mut self.out, els);
                self.out.append("\n");
            },
        }
        assert(self.out@ =~= old(self).out@ + op_text(m@, i@));
    }

    fn print_expr_leaf(&mut self, leaf: LeafExpr, m: &Module)
        requires
            leaf.known(m@),
        ensures
            final(self).out@ == old(self).out@ + expr_text(m@, Expr::Leaf(leaf)),
    {
        let leaf_type = leaf.expr_type(m);
        print_type(&mut self.out, leaf_type);
        self.out.append(" ");
        print_leaf(&mut self.out, &leaf);
        assert(self.out@ =~= old(self).out@ + expr_text(m@, Expr::Leaf(leaf)));
    }

    fn print_bin_op(&mut self, a: LeafExpr, op: BinaryOp, b: LeafExpr, m: &Module)
        requires
            a.known(m@),
        ensures
            final(self).out@ == old(self).out@ + expr_text(m@, Expr::Binary(a, op, b)),
    {
        let a_type = a.expr_type(m);
        match op {
            BinaryOp::Add => self.out.append("add"),
            BinaryOp::Sub => self.out.append("sub"),
            BinaryOp::Mul => self.out.append("mul"),
            BinaryOp::UDiv => self.out.append("udiv"),
            BinaryOp::IDiv => self.out.append("idiv"),
            BinaryOp::UMod => self.out.append("umod"),
            BinaryOp::IMod => self.out.append("imod"),
            BinaryOp::And => self.out.append("and"),
            BinaryOp::Or => self.out.append("or"),
            BinaryOp::Xor => self.out.append("xor"),
        }
        self.out.append(" ");
        print_type(&mut self.out, a_type);
        self.out.append(" ");
        print_leaf(&mut self.out, &a);
        self.out.append(", ");
        print_leaf(&mut self.out, &b);
        assert(self.out@ =~= old(self).out@ + expr_text(m@, Expr::Binary(a, op, b)));
    }

    fn print_un_op(&mut self, a: LeafExpr, op: UnaryOp, m: &Module)
        requires
            a.known(m@),
        ensures
            final(self).out@ == old(self).out@ + expr_text(m@, Expr::Unary(a, op)),
    {
        let a_type = a.expr_type(m);
        match op {
            UnaryOp::Not => self.out.append("not"),
            UnaryOp::Neg => self.out.append("neg"),
        }
        self.out.append(" ");
        print_type(&mut self.out, a_type);
        self.out.append(" ");
        print_leaf(&mut self.out, &a);
        assert(self.out@ =~= old(self).out@ + expr_text(m@, Expr::Unary(a, op)));
    }

    fn print_test_op(&mut self, a: LeafExpr, op: TestOp, b: LeafExpr, m: &Module)
        requires
            a.known(m@),
        ensures
            final(self).out@ == old(self).out@ + expr_text(m@, Expr::Test(a, op, b)),
    {
        let a_type = a.expr_type(m);
        match op {
            TestOp::Equal => self.out.append("teq"),
            TestOp::NotEqual => self.out.append("tne"),
        }
        self.out.append(" ");
        print_type(&mut self.out, a_type);
        self.out.append(" ");
        print_leaf(&mut self.out, &a);
        self.out.append(", ");
        print_leaf(&mut self.out, &b);
        assert(self.out@ =~= old(self).out@ + expr_text(m@, Expr::Test(a, op, b)));
    }

    fn print_reg_with_type(&mut self, reg: RegisterID, m: &Module)
        requires
            reg.0 < m@.registers.len(),
        ensures
            final(self).out@ == old(self).out@ + typed_register_text(m@, reg),
    {
        let rt = m.registers[reg.0].register_type();
        print_type(&mut self.out, rt);
        self.out.append(" ");
        print_register(&mut self.out, reg);
        assert(self.out@ =~= old(self).out@ + typed_register_text(m@, reg));
    }
}

/// A valid module can be printed.
pub proof fn lemma_valid_printable(m: ModuleView)
    requires
        m.valid(),
    ensures
        printable(m),
{
    assert forall|b: int, i: int|
        0 <= b < m.blocks.len() && 0 <= i < m.blocks[b].parameters.len() implies (#[trigger] m.blocks[b].parameters[i]).0
        < m.registers.len() by {
        assert(m.defines(
            super::valid::Site::Parameter { block: b, index: i },
            m.blocks[b].parameters[i],
        ));
    }
    assert forall|b: int, i: int|
        0 <= b < m.blocks.len() && 0 <= i < m.blocks[b].body.len() implies (
    #[trigger] m.blocks[b].body[i] matches Op::Assign(_, e) ==> expr_printable(m, e)) by {
        assert(m.op_typed(m.blocks[b].body[i]));
    }
}

/// Whether every register whose type is printed is a register of the module.
pub fn is_printable(m: &Module) -> (r: bool)
    ensures
        r == printable(m@),
{
    let mut b: usize = 0;
    while b < m.blocks.len()
        invariant
            b <= m.blocks.len(),
            forall|k: int, i: int|
                0 <= k < b && 0 <= i < m@.blocks[k].parameters.len() ==> (#[trigger] m@.blocks[k].parameters[i]).0
                    < m@.registers.len(),
            forall|k: int, i: int|
                0 <= k < b && 0 <= i < m@.blocks[k].body.len() ==> (
                #[trigger] m@.blocks[k].body[i] matches Op::Assign(_, e) ==> expr_printable(
                    m@,
                    e,
                )),
        decreases m.blocks.len() - b,
    {
        let block = &m.blocks[b];
        assert(m@.blocks[b as int] == block@);
        let mut i: usize = 0;
        while i < block.parameters.len()
            invariant
                i <= block.parameters.len(),
                b < m.blocks.len(),
                m@.blocks[b as int] == block@,
                forall|j: int|
                    0 <= j < i ==> (#[trigger] block@.parameters[j]).0 < m@.registers.len(),
            decreases block.parameters.len() - i,
        {
            if block.parameters[i].0 >= m.registers.len() {
                assert(!(m@.blocks[b as int].parameters[i as int].0 < m@.registers.len()));
                return false;
            }
            i += 1;
        }
        let mut j: usize = 0;
        while j < block.body.len()
            invariant
                j <= block.body.len(),
                b < m.blocks.len(),
                m@.blocks[b as int] == block@,
                forall|k: int|
                    0 <= k < j ==> (#[trigger] block@.body[k] matches Op::Assign(_, e)
                        ==> expr_printable(m@, e)),
            decreases block.body.len() - j,
        {
            assert(block@.body[j as int] == block.body[j as int]@);
            let first = match &block.body[j] {
                Instruction::Assign(_, Expr::Leaf(a)) => Some(*a),
                Instruction::Assign(_, Expr::Binary(a, _, _)) => Some(*a),
                Instruction::Assign(_, Expr::Unary(a, _)) => Some(*a),
                Instruction::Assign(_, Expr::Test(a, _, _)) => Some(*a),
                _ => None,
            };
            if let Some(LeafExpr::Register(r)) = first {
                if r.0 >= m.registers.len() {
                    assert(m@.blocks[b as int].body[j as int] matches Op::Assign(_, e)
                        && !expr_printable(m@, e));
                    return false;
                }
            }
            j += 1;
        }
        b += 1;
    }
    true
}

} // verus!
